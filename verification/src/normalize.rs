//! Byte order marks and line endings.

use crate::text::{
    chars_of, class_has, count_leading, leading, lemma_leading, starts_with_char, CharClass,
};
use vstd::prelude::*;
use vstd::string::StrSliceExecFns;

verus! {

#[derive(Debug, Clone, Copy, PartialEq, Eq, Structural)]
pub enum LineEnding {
    Lf,
    CrLf,
}

pub const BOM: char = '\u{feff}';

// ---------------------------------------------------------------------------------------------
// Model

/// The byte order mark at the front of a text, if it has one.
pub open spec fn bom_of(text: Seq<char>) -> Seq<char> {
    if starts_with_char(text, BOM) {
        seq![BOM]
    } else {
        seq![]
    }
}

pub open spec fn without_bom(text: Seq<char>) -> Seq<char> {
    text.skip(bom_of(text).len() as int)
}

/// The first line break of a text decides.
pub open spec fn line_ending_of(text: Seq<char>) -> LineEnding {
    let n = leading(text, CharClass::InLine);
    if 0 < n < text.len() && text[n - 1] == '\r' {
        LineEnding::CrLf
    } else {
        LineEnding::Lf
    }
}

/// Every CRLF, and every CR that no LF follows, as LF.
pub open spec fn lf_text(text: Seq<char>) -> Seq<char>
    decreases text.len(),
{
    if text.len() == 0 {
        seq![]
    } else if text[0] == '\r' {
        if text.len() > 1 && text[1] == '\n' {
            seq!['\n'] + lf_text(text.skip(2))
        } else {
            seq!['\n'] + lf_text(text.skip(1))
        }
    } else {
        seq![text[0]] + lf_text(text.skip(1))
    }
}

/// Every LF as CRLF.
pub open spec fn crlf_text(text: Seq<char>) -> Seq<char>
    decreases text.len(),
{
    if text.len() == 0 {
        seq![]
    } else if text.last() == '\n' {
        crlf_text(text.drop_last()).push('\r').push('\n')
    } else {
        crlf_text(text.drop_last()).push(text.last())
    }
}

pub open spec fn with_endings(text: Seq<char>, ending: LineEnding) -> Seq<char> {
    match ending {
        LineEnding::Lf => text,
        LineEnding::CrLf => crlf_text(text),
    }
}

pub open spec fn has_no_cr(text: Seq<char>) -> bool {
    forall|i: int| 0 <= i < text.len() ==> #[trigger] text[i] != '\r'
}

/// Every CR is followed by an LF and every LF follows a CR.
pub open spec fn is_crlf_text(text: Seq<char>) -> bool {
    &&& forall|i: int|
        0 <= i < text.len() && #[trigger] text[i] == '\r' ==> i + 1 < text.len() && text[i + 1]
            == '\n'
    &&& forall|i: int|
        0 <= i < text.len() && #[trigger] text[i] == '\n' ==> i > 0 && text[i - 1] == '\r'
}

// ---------------------------------------------------------------------------------------------
// Laws

/// A text without CR is its own LF form.
pub proof fn law_lf_text_kept(text: Seq<char>)
    requires
        has_no_cr(text),
    ensures
        lf_text(text) == text,
    decreases text.len(),
{
    if text.len() > 0 {
        assert(text[0] != '\r');
        assert forall|i: int| 0 <= i < text.skip(1).len() implies #[trigger] text.skip(1)[i]
            != '\r' by {
            assert(text.skip(1)[i] == text[i + 1]);
        }
        law_lf_text_kept(text.skip(1));
        assert(seq![text[0]] + text.skip(1) =~= text);
    } else {
        assert(text =~= seq![]);
    }
}

/// No CR is left in an LF form.
pub proof fn law_lf_text_has_no_cr(text: Seq<char>)
    ensures
        has_no_cr(lf_text(text)),
    decreases text.len(),
{
    if text.len() > 0 {
        if text[0] == '\r' && text.len() > 1 && text[1] == '\n' {
            law_lf_text_has_no_cr(text.skip(2));
        } else {
            law_lf_text_has_no_cr(text.skip(1));
        }
    }
}

/// Putting a text into LF form twice is the same as doing it once.
pub proof fn law_lf_text_idempotent(text: Seq<char>)
    ensures
        lf_text(lf_text(text)) == lf_text(text),
{
    law_lf_text_has_no_cr(text);
    law_lf_text_kept(lf_text(text));
}

proof fn lemma_lf_text_concat(a: Seq<char>, b: Seq<char>)
    requires
        !(a.len() > 0 && a.last() == '\r' && b.len() > 0 && b[0] == '\n'),
    ensures
        lf_text(a + b) == lf_text(a) + lf_text(b),
    decreases a.len(),
{
    let s = a + b;
    if a.len() == 0 {
        assert(s =~= b);
        assert(lf_text(a) + lf_text(b) =~= lf_text(b));
    } else if a[0] == '\r' && s.len() > 1 && s[1] == '\n' {
        assert(a.len() > 1);
        assert(s.skip(2) =~= a.skip(2) + b);
        lemma_lf_text_concat(a.skip(2), b);
        assert(lf_text(s) =~= lf_text(a) + lf_text(b));
    } else {
        assert(s.skip(1) =~= a.skip(1) + b);
        lemma_lf_text_concat(a.skip(1), b);
        assert(lf_text(s) =~= lf_text(a) + lf_text(b));
    }
}

/// Writing a text with either line ending and reading it back gives the text, provided that it
/// holds no CR of its own.
pub proof fn law_endings_round_trip(text: Seq<char>, ending: LineEnding)
    requires
        has_no_cr(text),
    ensures
        lf_text(with_endings(text, ending)) == text,
    decreases text.len(),
{
    match ending {
        LineEnding::Lf => law_lf_text_kept(text),
        LineEnding::CrLf => {
            if text.len() > 0 {
                let front = text.drop_last();
                assert forall|i: int| 0 <= i < front.len() implies #[trigger] front[i] != '\r' by {
                    assert(front[i] == text[i]);
                }
                assert(text.last() == text[text.len() - 1]);
                law_endings_round_trip(front, ending);
                let tail = if text.last() == '\n' {
                    seq!['\r', '\n']
                } else {
                    seq![text.last()]
                };
                assert(crlf_text(text) =~= crlf_text(front) + tail);
                lemma_crlf_text_last(front);
                lemma_lf_text_concat(crlf_text(front), tail);
                reveal_with_fuel(lf_text, 3);
                assert(tail.skip(tail.len() as int) =~= seq![]);
                assert(lf_text(tail) =~= seq![text.last()]);
                assert(front.push(text.last()) =~= text);
            }
        },
    }
}

proof fn lemma_crlf_text_last(text: Seq<char>)
    requires
        has_no_cr(text),
    ensures
        crlf_text(text).len() > 0 ==> crlf_text(text).last() != '\r',
{
    if text.len() > 0 {
        assert(text.last() == text[text.len() - 1]);
    }
}

/// A text whose line breaks are all alike comes back as it was: reading notes its line ending,
/// and writing restores it.
pub proof fn law_line_endings_survive(text: Seq<char>)
    requires
        has_no_cr(text) || is_crlf_text(text),
    ensures
        with_endings(lf_text(text), line_ending_of(text)) == text,
{
    lemma_leading(text, CharClass::InLine);
    let n = leading(text, CharClass::InLine);
    if n == text.len() {
        if is_crlf_text(text) {
            assert forall|i: int| 0 <= i < text.len() implies #[trigger] text[i] != '\r' by {
                if text[i] == '\r' {
                    assert(class_has(CharClass::InLine, text[i + 1]));
                }
            }
        }
        law_lf_text_kept(text);
    } else if has_no_cr(text) {
        law_lf_text_kept(text);
    } else {
        assert(text[n as int] == '\n');
        lemma_crlf_survives(text);
    }
}

proof fn lemma_crlf_survives(text: Seq<char>)
    requires
        is_crlf_text(text),
    ensures
        crlf_text(lf_text(text)) == text,
    decreases text.len(),
{
    if text.len() == 0 {
        assert(text =~= seq![]);
    } else {
        let last = text.last();
        assert(last == text[text.len() - 1]);
        let k = if last == '\n' {
            2
        } else {
            1int
        };
        let front = text.take(text.len() - k);
        let tail = text.skip(text.len() - k);
        assert(front + tail =~= text);
        assert(is_crlf_text(front)) by {
            assert forall|i: int| 0 <= i < front.len() && #[trigger] front[i] == '\r' implies i + 1
                < front.len() && front[i + 1] == '\n' by {
                assert(text[i] == '\r');
                assert(text[i + 1] == '\n');
                if i + 1 == front.len() {
                    assert(text[i + 1] == tail[0]);
                }
            }
            assert forall|i: int| 0 <= i < front.len() && #[trigger] front[i] == '\n' implies i > 0
                && front[i - 1] == '\r' by {
                assert(text[i] == '\n');
            }
        }
        lemma_crlf_survives(front);
        assert(tail[0] == text[text.len() - k]);
        lemma_lf_text_concat(front, tail);
        reveal_with_fuel(lf_text, 3);
        assert(tail.skip(k) =~= seq![]);
        assert(lf_text(tail) =~= seq![last]);
        let whole = lf_text(front) + seq![last];
        assert(whole.drop_last() =~= lf_text(front));
        assert(crlf_text(whole) =~= text);
    }
}

// ---------------------------------------------------------------------------------------------
// Executable functions

/// The byte order mark, or nothing, and the rest of the text.
pub fn strip_bom(text: &str) -> (r: (&str, &str))
    ensures
        r.0@ == bom_of(text@),
        r.1@ == without_bom(text@),
{
    let count = text.unicode_len();
    if count > 0 && text.get_char(0) == BOM {
        (text.substring_char(0, 1), text.substring_char(1, count))
    } else {
        (text.substring_char(0, 0), text.substring_char(0, count))
    }
}

pub fn detect_line_ending(text: &str) -> (r: LineEnding)
    ensures
        r == line_ending_of(text@),
{
    let chars = chars_of(text);
    let n = count_leading(chars.as_slice(), CharClass::InLine);
    if 0 < n && n < chars.len() && chars[n - 1] == '\r' {
        LineEnding::CrLf
    } else {
        LineEnding::Lf
    }
}

pub fn normalize_to_lf(text: &str) -> (out: String)
    ensures
        out@ == lf_text(text@),
{
    let chars = chars_of(text);
    let mut out = String::new();
    let mut i: usize = 0;
    proof {
        assert(text@.skip(0) =~= text@);
        assert(out@ + lf_text(text@) =~= lf_text(text@));
    }
    while i < chars.len()
        invariant
            i <= chars.len(),
            chars@ == text@,
            lf_text(text@) == out@ + lf_text(text@.skip(i as int)),
        decreases chars.len() - i,
    {
        let ghost rest = text@.skip(i as int);
        let ghost had = out@;
        let c = chars[i];
        if c == '\r' {
            out.push('\n');
            proof {
                assert(had + (seq!['\n'] + lf_text(rest.skip(1))) =~= out@ + lf_text(rest.skip(1)));
                assert(rest.skip(1) =~= text@.skip(i + 1));
                if rest.len() > 1 {
                    assert(had + (seq!['\n'] + lf_text(rest.skip(2))) =~= out@ + lf_text(
                        rest.skip(2),
                    ));
                    assert(rest.skip(2) =~= text@.skip(i + 2));
                }
            }
            if i + 1 < chars.len() && chars[i + 1] == '\n' {
                i += 1;
            }
        } else {
            out.push(c);
            proof {
                assert(had + (seq![c] + lf_text(rest.skip(1))) =~= out@ + lf_text(rest.skip(1)));
                assert(rest.skip(1) =~= text@.skip(i + 1));
            }
        }
        i += 1;
    }
    proof {
        assert(out@ + lf_text(text@.skip(i as int)) =~= out@);
    }
    out
}

pub fn restore_line_endings(text: &str, ending: LineEnding) -> (out: String)
    ensures
        out@ == with_endings(text@, ending),
{
    match ending {
        LineEnding::Lf => text.to_owned(),
        LineEnding::CrLf => {
            let chars = chars_of(text);
            let mut out = String::new();
            let mut i: usize = 0;
            while i < chars.len()
                invariant
                    i <= chars.len(),
                    chars@ == text@,
                    out@ == crlf_text(text@.take(i as int)),
                decreases chars.len() - i,
            {
                proof {
                    assert(text@.take(i + 1).drop_last() =~= text@.take(i as int));
                }
                let c = chars[i];
                if c == '\n' {
                    out.push('\r');
                }
                out.push(c);
                i += 1;
            }
            proof {
                assert(text@.take(i as int) =~= text@);
            }
            out
        },
    }
}

} // verus!
