//! What the ground operations on texts do: numbers, lines, line endings, tags and headers.

use crate::content::{
    all_numbered, is_numbered_line, is_tagged_header, lines_after_header, without_line_number,
    written_content,
};
use crate::patcher::with_slashes;
use crate::session::{fits_snapshot, new_session, recorded_text, session_of, SessionView};
use crate::format::{
    addressable_lines, file_tag, hash_text, header_of, header_text, law_header_round_trip, tag_of,
    unpadded, xxh32_digest,
};
use crate::minimizer::{minimized, MinimizerResult};
use crate::normalize::{
    bom_of, crlf_text, lf_text, line_ending_of, with_endings, without_bom, LineEnding, BOM,
};
use crate::scan::lid_value;
use crate::search::text_lines;
use crate::text::{
    all_of, class_has, decimal, digit_char, digit_value, digits_value, is_white, join_lines,
    law_decimal_round_trip, law_join_of_lines, law_lines_of_join, lemma_leading_is,
    lemma_lines_in_line, lemma_lines_nonempty, lemma_trailing, lemma_trailing_is, lines_of, newline,
    trimmed, uppercase, CharClass,
};
use vstd::prelude::*;

verus! {

// ---------------------------------------------------------------------------------------------
// Numbers

/// A number is written by the digits of its tens, and the digit of what is left.
pub proof fn law_decimal_digits(n: nat)
    ensures
        n < 10 ==> decimal(n) == seq![
            "0123456789"@[n as int],
        ],
        n >= 10 ==> decimal(n) == decimal(n / 10).push("0123456789"@[(n % 10) as int]),
{
    reveal_strlit("0123456789");
}

pub proof fn lemma_digits_back(s: Seq<char>)
    requires
        s.len() > 0,
        all_of(s, CharClass::Digit),
        s.len() > 1 ==> s[0] != '0',
    ensures
        decimal(digits_value(s)) == s,
    decreases s.len(),
{
    let front = s.drop_last();
    let last = s.last();
    assert(class_has(CharClass::Digit, s[s.len() - 1]));
    let d = digit_value(last);
    assert(digit_char(d) == last);
    if s.len() == 1 {
        assert(front =~= seq![]);
        reveal_with_fuel(digits_value, 2);
        assert(decimal(d) =~= s);
    } else {
        assert forall|i: int| 0 <= i < front.len() implies class_has(
            CharClass::Digit,
            #[trigger] front[i],
        ) by {
            assert(class_has(CharClass::Digit, s[i]));
        }
        lemma_digits_back(front);
        let v = digits_value(front);
        assert(v > 0) by {
            if v == 0 {
                assert(decimal(0) == seq!['0']);
                assert(front[0] == '0');
            }
        }
        assert(digits_value(s) == v * 10 + d);
        assert(digits_value(s) / 10 == v && digits_value(s) % 10 == d) by (nonlinear_arith)
            requires
                digits_value(s) == v * 10 + d,
                d < 10,
        ;
        assert(decimal(digits_value(s)) =~= front.push(last));
        assert(front.push(last) =~= s);
    }
}

/// A line number is read where, but for white space around it, it is written as a number is:
/// without leading zeros, and not zero. Numbers of more than sixty-three bits are refused.
pub proof fn law_line_numbers_are_read(s: Seq<char>, n: nat)
    ensures
        lid_value(s) == Some(n) <==> trimmed(s) == decimal(n) && 0 < n <= i64::MAX,
{
    let t = trimmed(s);
    if lid_value(s) == Some(n) {
        lemma_digits_back(t);
    }
    if t == decimal(n) && 0 < n <= i64::MAX {
        law_decimal_round_trip(n);
        crate::language::lemma_decimal_first(n);
    }
}

// ---------------------------------------------------------------------------------------------
// Characters

/// Which characters are white space, and which belong to each of the other classes.
pub proof fn law_classes_of_characters(c: char)
    ensures
        ({
            let n = c as int;
            &&& is_white(c) <==> 9 <= n <= 13 || n == 32 || n == 133 || n == 160 || n == 5760 || 8192
                <= n <= 8202 || n == 8232 || n == 8233 || n == 8239 || n == 8287 || n == 12288
            &&& class_has(CharClass::White, c) <==> is_white(c)
            &&& class_has(CharClass::Blank, c) <==> n == 32 || n == 9
            &&& class_has(CharClass::LinePad, c) <==> n == 32 || n == 9 || n == 13
            &&& class_has(CharClass::Return, c) <==> n == 13
            &&& class_has(CharClass::LineBreak, c) <==> n == 10 || n == 13
            &&& class_has(CharClass::InLine, c) <==> n != 10
            &&& class_has(CharClass::Digit, c) <==> 48 <= n <= 57
            &&& class_has(CharClass::Hex, c) <==> 48 <= n <= 57 || 65 <= n <= 70 || 97 <= n <= 102
            &&& class_has(CharClass::Separator, c) <==> n == 45 || n == 46 || n == 61 || n == 32 || n
                == 9 || n == 8230
            &&& class_has(CharClass::Name, c) <==> 48 <= n <= 57 || 65 <= n <= 90 || 97 <= n <= 122
                || n == 95 || n == 45
            &&& class_has(CharClass::Comma, c) <==> n == 44
            &&& class_has(CharClass::Hash, c) <==> n == 35
            &&& class_has(CharClass::NotHash, c) <==> n != 35
        }),
{
}

// ---------------------------------------------------------------------------------------------
// Lines

proof fn lemma_first_line(seg: Seq<char>, rest: Seq<char>)
    requires
        all_of(seg, CharClass::InLine),
    ensures
        lines_of(seg + seq!['\n'] + rest) == seq![seg] + lines_of(rest),
        lines_of(seg) == seq![seg],
{
    let s = seg + seq!['\n'] + rest;
    assert forall|i: int| 0 <= i < seg.len() implies class_has(CharClass::InLine, #[trigger] s[i]) by {
        assert(class_has(CharClass::InLine, seg[i]));
    }
    assert(s[seg.len() as int] == '\n');
    lemma_leading_is(s, CharClass::InLine, seg.len());
    assert(s.take(seg.len() as int) =~= seg);
    assert(s.skip(seg.len() as int + 1) =~= rest);
    lemma_leading_is(seg, CharClass::InLine, seg.len());
}

/// Lines end at line feeds, and a carriage return before one belongs to the break. What follows the
/// last line feed is a line only where there is something.
pub proof fn law_lines_of_a_text(seg: Seq<char>, rest: Seq<char>)
    requires
        forall|i: int| 0 <= i < seg.len() ==> #[trigger] seg[i] != '\n',
    ensures
        text_lines(seg) == if seg.len() == 0 {
            seq![]
        } else {
            seq![seg]
        },
        text_lines(seg + seq!['\n'] + rest) == seq![
            if seg.len() > 0 && seg.last() == '\r' {
                seg.drop_last()
            } else {
                seg
            },
        ] + text_lines(rest),
{
    lemma_first_line(seg, rest);
    let s = seg + seq!['\n'] + rest;
    let all = lines_of(s);
    let more = lines_of(rest);
    lemma_lines_nonempty(rest);
    assert(all.last() == more.last());
    let first = if seg.len() > 0 && seg.last() == '\r' {
        seg.drop_last()
    } else {
        seg
    };
    assert(text_lines(s) =~= seq![first] + text_lines(rest));
    assert(text_lines(seg) =~= if seg.len() == 0 {
        seq![]
    } else {
        seq![seg]
    });
}

/// The lines that can be named are those between line feeds, without the empty one behind a final
/// line feed.
pub proof fn law_lines_that_can_be_named(text: Seq<char>)
    ensures
        text.len() > 0 && text.last() == '\n' ==> join_lines(addressable_lines(text)) + seq!['\n']
            == text,
        !(text.len() > 0 && text.last() == '\n') ==> join_lines(addressable_lines(text)) == text,
        forall|i: int|
            0 <= i < addressable_lines(text).len() ==> all_of(
                #[trigger] addressable_lines(text)[i],
                CharClass::InLine,
            ),
        addressable_lines(text).len() > 0,
{
    law_join_of_lines(text);
    lemma_lines_nonempty(text);
    lemma_lines_in_line(text);
    let lines = lines_of(text);
    assert forall|i: int| 0 <= i < addressable_lines(text).len() implies all_of(
        #[trigger] addressable_lines(text)[i],
        CharClass::InLine,
    ) by {
        assert(addressable_lines(text)[i] == lines[i]);
    }
    if lines.len() > 1 {
        let front = lines.drop_last();
        assert(text == join_lines(front) + newline() + lines.last());
        if lines.last().len() == 0 {
            assert(text =~= join_lines(front) + seq!['\n']);
        } else {
            assert(text.last() == lines.last().last());
            assert(all_of(lines[lines.len() - 1], CharClass::InLine));
            assert(class_has(CharClass::InLine, lines.last()[lines.last().len() - 1]));
        }
    } else {
        assert(text == lines[0]);
        if text.len() > 0 {
            assert(class_has(CharClass::InLine, lines[0][text.len() - 1]));
        }
    }
}

// ---------------------------------------------------------------------------------------------
// Marks and endings

/// A byte order mark at the front is taken off, one of it, and nothing else.
pub proof fn law_byte_order_mark_is_taken_off(text: Seq<char>)
    requires
        !(text.len() > 0 && text[0] == '\u{feff}'),
    ensures
        bom_of(text).len() == 0 && without_bom(text) == text,
        forall|rest: Seq<char>|
            #![trigger seq!['\u{feff}'] + rest]
            bom_of(seq!['\u{feff}'] + rest) == seq!['\u{feff}'] && without_bom(
                seq!['\u{feff}'] + rest,
            ) == rest,
{
    assert(text.skip(0) =~= text);
    assert forall|rest: Seq<char>|
        #![trigger seq!['\u{feff}'] + rest]
        bom_of(seq!['\u{feff}'] + rest) == seq!['\u{feff}'] && without_bom(
            seq!['\u{feff}'] + rest,
        ) == rest by {
        let s = seq!['\u{feff}'] + rest;
        assert(s[0] == BOM);
        assert(s.skip(1) =~= rest);
    }
}

/// The first line feed of a text decides on its line ending: whether a carriage return stands
/// before it. A text without line feeds has the plain one.
pub proof fn law_first_break_decides(seg: Seq<char>, rest: Seq<char>)
    requires
        forall|i: int| 0 <= i < seg.len() ==> #[trigger] seg[i] != '\n',
    ensures
        line_ending_of(seg) == LineEnding::Lf,
        line_ending_of(seg + seq!['\n'] + rest) == if seg.len() > 0 && seg.last() == '\r' {
            LineEnding::CrLf
        } else {
            LineEnding::Lf
        },
{
    let s = seg + seq!['\n'] + rest;
    assert forall|i: int| 0 <= i < seg.len() implies class_has(CharClass::InLine, #[trigger] s[i]) by {
        assert(s[i] == seg[i]);
    }
    assert(s[seg.len() as int] == '\n');
    lemma_leading_is(s, CharClass::InLine, seg.len());
    lemma_leading_is(seg, CharClass::InLine, seg.len());
    if seg.len() > 0 {
        assert(s[seg.len() - 1] == seg.last());
    }
}

/// Every line break becomes a line feed: a line feed, a carriage return, or the two together. All
/// else is kept.
pub proof fn law_breaks_become_line_feeds(seg: Seq<char>, rest: Seq<char>)
    requires
        forall|i: int| 0 <= i < seg.len() ==> #[trigger] seg[i] != '\n' && seg[i] != '\r',
    ensures
        lf_text(seg) == seg,
        lf_text(seg + seq!['\n'] + rest) == seg + seq!['\n'] + lf_text(rest),
        lf_text(seg + seq!['\r', '\n'] + rest) == seg + seq!['\n'] + lf_text(rest),
        !(rest.len() > 0 && rest[0] == '\n') ==> lf_text(seg + seq!['\r'] + rest) == seg + seq!['\n']
            + lf_text(rest),
    decreases seg.len(),
{
    if seg.len() == 0 {
        assert(seg + seq!['\n'] + rest =~= seq!['\n'] + rest);
        assert((seq!['\n'] + rest).skip(1) =~= rest);
        assert(seg + seq!['\r', '\n'] + rest =~= seq!['\r', '\n'] + rest);
        assert((seq!['\r', '\n'] + rest).skip(2) =~= rest);
        assert(seg + seq!['\r'] + rest =~= seq!['\r'] + rest);
        assert((seq!['\r'] + rest).skip(1) =~= rest);
        assert(seg + seq!['\n'] + lf_text(rest) =~= seq!['\n'] + lf_text(rest));
        assert(seg =~= seq![]);
    } else {
        let c = seg[0];
        let less = seg.skip(1);
        assert forall|i: int| 0 <= i < less.len() implies #[trigger] less[i] != '\n' && less[i]
            != '\r' by {
            assert(less[i] == seg[i + 1]);
        }
        law_breaks_become_line_feeds(less, rest);
        assert(seg =~= seq![c] + less);
        assert((seg + seq!['\n'] + rest).skip(1) =~= less + seq!['\n'] + rest);
        assert((seg + seq!['\r', '\n'] + rest).skip(1) =~= less + seq!['\r', '\n'] + rest);
        assert((seg + seq!['\r'] + rest).skip(1) =~= less + seq!['\r'] + rest);
        assert(seq![c] + (less + seq!['\n'] + lf_text(rest)) =~= seg + seq!['\n'] + lf_text(rest));
    }
}

proof fn lemma_crlf_concat(a: Seq<char>, b: Seq<char>)
    ensures
        crlf_text(a + b) == crlf_text(a) + crlf_text(b),
    decreases b.len(),
{
    if b.len() == 0 {
        assert(a + b =~= a);
        assert(crlf_text(a) + crlf_text(b) =~= crlf_text(a));
    } else {
        lemma_crlf_concat(a, b.drop_last());
        assert((a + b).drop_last() =~= a + b.drop_last());
        assert(crlf_text(a + b) =~= crlf_text(a) + crlf_text(b));
    }
}

proof fn lemma_crlf_plain(seg: Seq<char>)
    requires
        forall|i: int| 0 <= i < seg.len() ==> #[trigger] seg[i] != '\n',
    ensures
        crlf_text(seg) == seg,
    decreases seg.len(),
{
    if seg.len() > 0 {
        let front = seg.drop_last();
        assert forall|i: int| 0 <= i < front.len() implies #[trigger] front[i] != '\n' by {
            assert(front[i] == seg[i]);
        }
        lemma_crlf_plain(front);
        assert(seg.last() == seg[seg.len() - 1]);
        assert(front.push(seg.last()) =~= seg);
    } else {
        assert(seg =~= seq![]);
    }
}

/// A text is written with the line ending that is asked for: every line feed as that ending, and
/// all else as it is.
pub proof fn law_line_feeds_become_endings(seg: Seq<char>, rest: Seq<char>, ending: LineEnding)
    requires
        forall|i: int| 0 <= i < seg.len() ==> #[trigger] seg[i] != '\n',
    ensures
        with_endings(seg, ending) == seg,
        with_endings(seg + seq!['\n'] + rest, LineEnding::Lf) == seg + seq!['\n'] + rest,
        with_endings(seg + seq!['\n'] + rest, LineEnding::CrLf) == seg + seq!['\r', '\n']
            + with_endings(rest, LineEnding::CrLf),
{
    lemma_crlf_plain(seg);
    lemma_crlf_concat(seg + seq!['\n'], rest);
    lemma_crlf_concat(seg, seq!['\n']);
    assert(seq!['\n'].drop_last() =~= seq![]);
    reveal_with_fuel(crlf_text, 2);
    assert(crlf_text(seq!['\n']) =~= seq!['\r', '\n']);
}

// ---------------------------------------------------------------------------------------------
// Tags and headers

pub open spec fn hex_value(c: char) -> int {
    if '0' <= c <= '9' {
        c as int - '0' as int
    } else {
        c as int - 'A' as int + 10
    }
}

/// A tag is the low sixteen bits of a digest in hexadecimal, the highest digit first.
pub proof fn law_tag_is_low_bits(digest: u32)
    ensures
        ({
            let t = tag_of(digest);
            &&& t.len() == 4
            &&& hex_value(t[0]) * 4096 + hex_value(t[1]) * 256 + hex_value(t[2]) * 16 + hex_value(
                t[3],
            ) == digest % 65536
        }),
{
    let low = (digest % 65536) as nat;
    let t = tag_of(digest);
    lemma_hex(low / 4096);
    lemma_hex(low / 256 % 16);
    lemma_hex(low / 16 % 16);
    lemma_hex(low % 16);
    lemma_hex_digits(low);
    assert(hex_value(t[0]) == low / 4096);
    assert(hex_value(t[1]) == low / 256 % 16);
    assert(hex_value(t[2]) == low / 16 % 16);
    assert(hex_value(t[3]) == low % 16);
}

proof fn lemma_hex_digits(low: nat)
    requires
        low < 65536,
    ensures
        (low / 4096) * 4096 + (low / 256 % 16) * 256 + (low / 16 % 16) * 16 + low % 16 == low,
        low / 4096 < 16,
{
    let a = low / 16;
    let b = a / 16;
    assert(low / 256 == b);
    assert(low / 4096 == b / 16);
}

proof fn lemma_hex(d: nat)
    requires
        d < 16,
    ensures
        hex_value(digit_char(d)) == d,
{
    assert('9' as int == '0' as int + 9);
    assert('F' as int == 'A' as int + 5);
}

/// A header without a tag names a path alone, also with a number sign behind it. Anything that does
/// not stand in brackets, and brackets with nothing in them, is no header.
pub proof fn law_headers_without_tag(path: Seq<char>, line: Seq<char>)
    requires
        path.len() > 0,
        !is_white(path[0]),
        !is_white(path.last()),
        forall|i: int| 0 <= i < path.len() ==> #[trigger] path[i] != '#',
    ensures
        header_of(seq!['['] + path + seq![']']) == Some((path, None::<Seq<char>>)),
        header_of(seq!['['] + path + seq!['#', ']']) == Some((path, None::<Seq<char>>)),
        header_of(seq!['[', ']']) is None,
        header_of(line) is Some ==> trimmed(line).len() > 2 && trimmed(line)[0] == '[' && trimmed(
            line,
        ).last() == ']',
{
    let a = seq!['['] + path + seq![']'];
    lemma_kept(a);
    let inner = a.subrange(1, a.len() - 1);
    assert(inner =~= path);
    assert forall|i: int| 0 <= i < path.len() implies class_has(
        CharClass::NotHash,
        #[trigger] path[i],
    ) by {}
    lemma_trailing_is(path, CharClass::NotHash, path.len());
    let b = seq!['['] + path + seq!['#', ']'];
    lemma_kept(b);
    let inside = b.subrange(1, b.len() - 1);
    assert(inside =~= path + seq!['#']);
    assert(inside.last() == '#');
    lemma_trailing_is(inside, CharClass::NotHash, 0);
    assert(inside.take(inside.len() - 1) =~= path);
    lemma_kept(path);
    let none = inside.skip(inside.len() as int);
    assert(none =~= seq![]);
    lemma_kept(none);
    let c = seq!['[', ']'];
    lemma_kept(c);
    let nothing = c.subrange(1, 1);
    assert(nothing =~= seq![]);
    lemma_trailing(nothing, CharClass::NotHash);
    let t = trimmed(line);
    if header_of(line) is Some && t.len() <= 2 {
        assert(t.len() == 2 || t.len() == 1);
        if t.len() == 2 {
            let i = t.subrange(1, 1);
            assert(i =~= seq![]);
            lemma_trailing(i, CharClass::NotHash);
        } else {
            assert(t[0] == t.last());
        }
    }
}

/// What follows the last number sign is a tag only where it is four hexadecimal digits; else it
/// belongs to the path.
pub proof fn law_headers_with_a_number_sign(path: Seq<char>, end: Seq<char>)
    requires
        path.len() > 0,
        !is_white(path[0]),
        !is_white(path.last()),
        end.len() > 0,
        !is_white(end[0]),
        !is_white(end.last()),
        forall|i: int| 0 <= i < end.len() ==> #[trigger] end[i] != '#',
    ensures
        ({
            let line = seq!['['] + path + seq!['#'] + end + seq![']'];
            header_of(line) == if end.len() == 4 && all_of(end, CharClass::Hex) {
                Some((path, Some(uppercase(end))))
            } else {
                Some((path + seq!['#'] + end, None::<Seq<char>>))
            }
        }),
{
    let line = seq!['['] + path + seq!['#'] + end + seq![']'];
    lemma_kept(line);
    let inner = line.subrange(1, line.len() - 1);
    assert(inner =~= path + seq!['#'] + end);
    assert forall|i: int| inner.len() - end.len() <= i < inner.len() implies class_has(
        CharClass::NotHash,
        #[trigger] inner[i],
    ) by {
        assert(inner[i] == end[i - path.len() - 1]);
    }
    assert(inner[inner.len() - end.len() - 1] == '#');
    lemma_trailing_is(inner, CharClass::NotHash, end.len());
    assert(inner.take(inner.len() - end.len() - 1) =~= path);
    assert(inner.skip(inner.len() - end.len()) =~= end);
    lemma_kept(path);
    lemma_kept(end);
}

proof fn lemma_kept(s: Seq<char>)
    requires
        s.len() > 0 ==> !is_white(s[0]) && !is_white(s.last()),
    ensures
        trimmed(s) == s,
{
    lemma_leading_is(s, CharClass::White, 0);
    assert(s.skip(0) =~= s);
    lemma_trailing_is(s, CharClass::White, 0);
    assert(s.take(s.len() as int) =~= s);
}

// ---------------------------------------------------------------------------------------------
// Content

/// A line that begins with digits and a colon, and what follows them.
pub open spec fn is_numbered_by(line: Seq<char>, digits: Seq<char>, text: Seq<char>) -> bool {
    digits.len() > 0 && all_of(digits, CharClass::Digit) && line == digits + seq![':'] + text
}

proof fn lemma_numbered_by(line: Seq<char>, digits: Seq<char>, text: Seq<char>)
    requires
        is_numbered_by(line, digits, text),
    ensures
        is_numbered_line(line),
        without_line_number(line) == text,
{
    assert forall|i: int| 0 <= i < digits.len() implies class_has(
        CharClass::Digit,
        #[trigger] line[i],
    ) by {
        assert(class_has(CharClass::Digit, digits[i]));
    }
    assert(line[digits.len() as int] == ':');
    lemma_leading_is(line, CharClass::Digit, digits.len());
    assert(line.skip(digits.len() as int + 1) =~= text);
}

/// Content of which every line is empty or has a number, and not all are empty, is stored without
/// the numbers, whichever they are.
pub proof fn law_line_numbers_are_not_stored(
    lines: Seq<Seq<char>>,
    digits: Seq<Seq<char>>,
    texts: Seq<Seq<char>>,
    k: int,
)
    requires
        lines.len() == digits.len() == texts.len(),
        forall|i: int|
            0 <= i < lines.len() ==> all_of(#[trigger] lines[i], CharClass::InLine) && (
            lines[i].len() == 0 && texts[i].len() == 0 || is_numbered_by(
                lines[i],
                digits[i],
                texts[i],
            )),
        0 <= k < lines.len(),
        lines[k].len() > 0,
    ensures
        written_content(join_lines(lines)) == join_lines(texts),
{
    law_lines_of_join(lines);
    let first = lines[0];
    assert(!is_tagged_header(first)) by {
        if first.len() > 0 {
            lemma_numbered_by(first, digits[0], texts[0]);
            let n = digits[0].len();
            assert(class_has(CharClass::Digit, digits[0][0]));
            assert(first[0] == digits[0][0]);
            crate::language::lemma_trimmed_first(first);
        } else {
            lemma_kept(first);
        }
    }
    assert(lines_after_header(join_lines(lines)) == lines);
    assert forall|i: int| 0 <= i < lines.len() && (#[trigger] lines[i]).len() > 0 implies
        is_numbered_line(lines[i]) by {
        lemma_numbered_by(lines[i], digits[i], texts[i]);
    }
    assert(all_numbered(lines));
    let stripped = Seq::new(lines.len(), |i: int| without_line_number(lines[i]));
    assert forall|i: int| 0 <= i < lines.len() implies #[trigger] stripped[i] == texts[i] by {
        if lines[i].len() > 0 {
            lemma_numbered_by(lines[i], digits[i], texts[i]);
        } else {
            assert(!is_numbered_line(lines[i]));
            assert(lines[i] =~= texts[i]);
        }
    }
    assert(stripped =~= texts);
}

/// A header with a tag on the first line is not stored. What follows it is stored as it is where
/// one of its lines has no number.
pub proof fn law_copied_header_is_not_stored(path: Seq<char>, tag: Seq<char>, lines: Seq<Seq<char>>, k: int)
    requires
        path.len() > 0,
        all_of(path, CharClass::InLine),
        !is_white(path[0]),
        !is_white(path.last()),
        tag.len() == 4,
        all_of(tag, CharClass::Hex),
        forall|i: int| 0 <= i < lines.len() ==> all_of(#[trigger] lines[i], CharClass::InLine),
        0 <= k < lines.len(),
        lines[k].len() > 0,
        !is_numbered_line(lines[k]),
    ensures
        written_content(header_text(path, tag) + seq!['\n'] + join_lines(lines)) == join_lines(
            lines,
        ),
{
    let header = header_text(path, tag);
    law_header_round_trip(path, tag);
    assert forall|i: int| 0 <= i < header.len() implies class_has(
        CharClass::InLine,
        #[trigger] header[i],
    ) by {
        if 0 < i <= path.len() {
            assert(header[i] == path[i - 1]);
        } else if path.len() + 1 < i < header.len() - 1 {
            assert(header[i] == tag[i - path.len() - 2]);
            assert(class_has(CharClass::Hex, tag[i - path.len() - 2]));
        }
    }
    law_lines_of_join(lines);
    lemma_first_line(header, join_lines(lines));
    let content = header + seq!['\n'] + join_lines(lines);
    assert(lines_of(content)[0] == header);
    assert(lines_after_header(content) =~= lines);
}

// ---------------------------------------------------------------------------------------------
// Notes

/// What is shown of shortened output: the shorter text, ended by a line feed, and a note that names
/// the filter and both sizes.
pub proof fn law_minimized_output_in_full(r: MinimizerResult)
    ensures
        ({
            let note = "[output minimized via "@ + r.filter@ + " : "@ + decimal(
                r.input_bytes as nat,
            ) + " -> "@ + decimal(r.output_bytes as nat) + " bytes]"@;
            &&& r.text@.len() > 0 && r.text@.last() == '\n' ==> minimized(r) == r.text@ + note
            &&& !(r.text@.len() > 0 && r.text@.last() == '\n') ==> minimized(r) == r.text@ + seq![
                '\n',
            ] + note
        }),
{
    let note = "[output minimized via "@ + r.filter@ + " : "@ + decimal(r.input_bytes as nat)
        + " -> "@ + decimal(r.output_bytes as nat) + " bytes]"@;
    if r.text@.len() > 0 && r.text@.last() == '\n' {
        assert(minimized(r) =~= r.text@ + note);
    } else {
        assert(minimized(r) =~= r.text@ + seq!['\n'] + note);
    }
}

/// A tag is that of the whole text: of its lines without spaces, tabs and carriage returns at their
/// ends, and nothing else left out.
pub proof fn law_tag_is_of_the_whole_text(lines: Seq<Seq<char>>)
    requires
        lines.len() > 0,
        forall|i: int|
            0 <= i < lines.len() ==> all_of(#[trigger] lines[i], CharClass::InLine) && (
            lines[i].len() > 0 ==> lines[i].last() != ' ' && lines[i].last() != '\t'
                && lines[i].last() != '\r'),
    ensures
        hash_text(join_lines(lines)) == join_lines(lines),
        file_tag(join_lines(lines)) == tag_of(
            xxh32_digest(vstd::utf8::encode_utf8(join_lines(lines)), 0),
        ),
{
    law_lines_of_join(lines);
    let kept = unpadded(lines);
    assert forall|i: int| 0 <= i < lines.len() implies #[trigger] kept[i] == lines[i] by {
        assert(all_of(lines[i], CharClass::InLine));
        lemma_trailing_is(lines[i], CharClass::LinePad, 0);
        assert(lines[i].take(lines[i].len() as int) =~= lines[i]);
    }
    assert(kept =~= lines);
}

/// Upper case is that of ASCII letters; other characters stay.
pub proof fn law_upper_case(s: Seq<char>)
    ensures
        uppercase(s).len() == s.len(),
        forall|i: int|
            0 <= i < s.len() ==> (#[trigger] uppercase(s)[i]) as int == if 'a' <= s[i] <= 'z' {
                s[i] as int - 32
            } else {
                s[i] as int
            },
{
}

/// Paths are shown with forward slashes, and otherwise as they are.
pub proof fn law_paths_have_forward_slashes(path: Seq<char>)
    ensures
        with_slashes(path).len() == path.len(),
        forall|i: int|
            0 <= i < path.len() ==> (#[trigger] with_slashes(path)[i]) == if path[i] == '\\' {
                '/'
            } else {
                path[i]
            },
{
}

/// What is recorded of a file is its text without byte order mark and with line feeds alone, up to
/// four mebibytes. A session keeps four versions of two hundred and fifty-six paths.
pub proof fn law_what_is_recorded(text: Seq<char>)
    ensures
        recorded_text(text) == lf_text(without_bom(text)),
        fits_snapshot(text) <==> vstd::utf8::encode_utf8(text).len() <= 4 * 1024 * 1024,
        new_session().store.max_paths == 256,
        new_session().store.max_versions == 4,
        new_session().store.order.len() == 0,
        new_session().clip.lines is None,
        new_session().clip.named == Map::<Seq<char>, Seq<Seq<char>>>::empty(),
        new_session().clip.pending.len() == 0,
{
}

/// The state of a session is its own: what is put under one name is found under it and changes no
/// other.
pub proof fn law_sessions_are_apart(
    sessions: Map<Seq<char>, SessionView>,
    id: Seq<char>,
    state: SessionView,
    other: Seq<char>,
)
    ensures
        session_of(sessions.insert(id, state), id) == state,
        other != id ==> session_of(sessions.insert(id, state), other) == session_of(
            sessions,
            other,
        ),
        !sessions.contains_key(id) ==> session_of(sessions, id) == new_session(),
{
}

} // verus!
