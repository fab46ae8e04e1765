//! Hashline format primitives: sigils, hashing, and numbered-line display.

use crate::text::{
    all_in_class, all_of, chars_of, class_has, count_trailing, decimal, digit_char, ends_with_char,
    first_is, is_white, join_lines, join_text, last_is, law_lines_of_join, lemma_leading_is,
    lemma_lines_in_line, lemma_lines_nonempty, lemma_trailing, lemma_trailing_is, line_spans,
    lines_of, part, push_decimal, push_hex_digit, skip, spans_of, split_lines, starts_with_char,
    string_of, strs, take, trailing, trim, trim_end, trimmed, trimmed_end, uppercase,
    uppercase_string, CharClass,
};
use vstd::prelude::*;
use vstd::utf8::encode_utf8;
use xxhash_rust::xxh32::xxh32;

verus! {

pub const HL_FILE_PREFIX: char = '[';

pub const HL_FILE_SUFFIX: char = ']';

pub const HL_FILE_HASH_SEP: char = '#';

pub const HL_RANGE_SEP: &'static str = ".=";

pub const HL_LINE_BODY_SEP: char = ':';

pub const HL_FILE_HASH_LENGTH: usize = 4;

/// The 32-bit xxHash of some bytes for a seed, as `xxhash_rust::xxh32::xxh32` computes it.
pub uninterp spec fn xxh32_digest(bytes: Seq<u8>, seed: u32) -> u32;

/// `xxhash_rust::xxh32::xxh32`: the digest depends on the bytes and the seed alone. Nothing more is
/// claimed of it.
pub assume_specification[ xxhash_rust::xxh32::xxh32 ](input: &[u8], seed: u32) -> (r: u32)
    ensures
        r == xxh32_digest(input@, seed),
;

// ---------------------------------------------------------------------------------------------
// Model

/// The lines without what the tag disregards at their ends.
pub open spec fn unpadded(lines: Seq<Seq<char>>) -> Seq<Seq<char>> {
    Seq::new(lines.len(), |i: int| trimmed_end(lines[i], CharClass::LinePad))
}

/// The text that a tag is computed from.
pub open spec fn hash_text(text: Seq<char>) -> Seq<char> {
    join_lines(unpadded(lines_of(text)))
}

/// The low sixteen bits of a digest as four upper-case hexadecimal digits.
pub open spec fn tag_of(digest: u32) -> Seq<char> {
    let low = (digest % 65536) as nat;
    seq![
        digit_char(low / 4096),
        digit_char(low / 256 % 16),
        digit_char(low / 16 % 16),
        digit_char(low % 16),
    ]
}

/// The tag of a text.
pub open spec fn file_tag(text: Seq<char>) -> Seq<char> {
    tag_of(xxh32_digest(encode_utf8(hash_text(text)), 0))
}

/// `[PATH#TAG]`
pub open spec fn header_text(path: Seq<char>, tag: Seq<char>) -> Seq<char> {
    seq!['['] + path + seq!['#'] + tag + seq![']']
}

/// `N:TEXT`
pub open spec fn numbered(n: nat, line: Seq<char>) -> Seq<char> {
    decimal(n) + seq![':'] + line
}

/// The lines, numbered from `start` on.
pub open spec fn numbered_lines(lines: Seq<Seq<char>>, start: nat) -> Seq<Seq<char>> {
    Seq::new(lines.len(), |i: int| numbered((start + i) as nat, lines[i]))
}

/// The lines of a text, of which an empty one after a final line feed is none.
pub open spec fn addressable_lines(text: Seq<char>) -> Seq<Seq<char>> {
    let lines = lines_of(text);
    if lines.len() > 1 && lines.last().len() == 0 {
        lines.drop_last()
    } else {
        lines
    }
}

/// A path and an optional tag, out of a line such as `[PATH#TAG]`, `[PATH#]` or `[PATH]`.
///
/// The last number sign parts path and tag. Where what follows it is neither empty nor four
/// hexadecimal digits, it belongs to the path.
pub open spec fn header_of(line: Seq<char>) -> Option<(Seq<char>, Option<Seq<char>>)> {
    let t = trimmed(line);
    if !starts_with_char(t, '[') || !ends_with_char(t, ']') {
        None
    } else {
        let inner = t.subrange(1, t.len() - 1);
        let after = trailing(inner, CharClass::NotHash);
        if after < inner.len() {
            let path = trimmed(inner.take(inner.len() - after - 1));
            let tag = trimmed(inner.skip(inner.len() - after));
            if path.len() == 0 {
                None
            } else if tag.len() == 4 && all_of(tag, CharClass::Hex) {
                Some((path, Some(uppercase(tag))))
            } else if tag.len() == 0 {
                Some((path, None))
            } else {
                Some((inner, None))
            }
        } else if inner.len() == 0 {
            None
        } else {
            Some((inner, None))
        }
    }
}

/// The views of what `parse_hashline_header` returns.
pub open spec fn header_view(r: Option<(String, Option<String>)>) -> Option<
    (Seq<char>, Option<Seq<char>>),
> {
    match r {
        Some((path, Some(tag))) => Some((path@, Some(tag@))),
        Some((path, None)) => Some((path@, None)),
        None => None,
    }
}

// ---------------------------------------------------------------------------------------------
// Executable functions

/// Trim trailing space/tab/CR from every line so CRLF and display-trim
/// do not invalidate a tag.
pub fn normalize_file_hash_text(text: &str) -> (out: String)
    ensures
        out@ == hash_text(text@),
{
    let chars = chars_of(text);
    let s = chars.as_slice();
    let spans = line_spans(s);
    let mut parts: Vec<String> = Vec::new();
    let ghost lines = lines_of(text@);
    let mut i: usize = 0;
    while i < spans.len()
        invariant
            i <= spans.len(),
            s@ == text@,
            lines == lines_of(text@),
            spans_of(spans@, s@, lines),
            parts@.len() == i,
            forall|j: int| 0 <= j < i ==> (#[trigger] parts@[j])@ == unpadded(lines)[j],
        decreases spans.len() - i,
    {
        let span = spans[i];
        parts.push(string_of(trim_end(part(s, span.0, span.1), CharClass::LinePad)));
        i += 1;
    }
    proof {
        assert(strs(parts@) =~= unpadded(lines));
    }
    join_text(parts.as_slice())
}

/// The tag that a digest gives.
pub fn tag_of_digest(digest: u32) -> (out: String)
    ensures
        out@ == tag_of(digest),
{
    let low = digest % 65536;
    let mut out = String::new();
    push_hex_digit(&mut out, low / 4096);
    push_hex_digit(&mut out, low / 256 % 16);
    push_hex_digit(&mut out, low / 16 % 16);
    push_hex_digit(&mut out, low % 16);
    proof {
        assert(out@ =~= tag_of(digest));
    }
    out
}

/// 4-hex fingerprint: low 16 bits of xxHash32(seed 0) over normalized text.
pub fn compute_file_hash(text: &str) -> (out: String)
    ensures
        out@ == file_tag(text@),
{
    let normalized = normalize_file_hash_text(text);
    tag_of_digest(xxh32(normalized.as_str().as_bytes(), 0))
}

pub fn format_hashline_header(file_path: &str, file_hash: &str) -> (out: String)
    ensures
        out@ == header_text(file_path@, file_hash@),
{
    let mut out = String::new();
    out.push(HL_FILE_PREFIX);
    out.append(file_path);
    out.push(HL_FILE_HASH_SEP);
    out.append(file_hash);
    out.push(HL_FILE_SUFFIX);
    proof {
        assert(out@ =~= header_text(file_path@, file_hash@));
    }
    out
}

pub fn format_numbered_line(line_number: usize, line: &str) -> (out: String)
    ensures
        out@ == numbered(line_number as nat, line@),
{
    let mut out = String::new();
    push_decimal(&mut out, line_number);
    out.push(HL_LINE_BODY_SEP);
    out.append(line);
    proof {
        assert(out@ =~= numbered(line_number as nat, line@));
    }
    out
}

/// Split LF text into addressable lines. A terminal newline is not content.
pub fn split_addressable_file_lines(text: &str) -> (out: Vec<String>)
    ensures
        strs(out@) == addressable_lines(text@),
{
    let mut lines = split_lines(chars_of(text).as_slice());
    let ghost all = strs(lines@);
    let n = lines.len();
    if n > 1 {
        let last = chars_of(lines[n - 1].as_str());
        if last.len() == 0 {
            lines.pop();
            proof {
                assert(strs(lines@) =~= all.drop_last());
            }
        }
    }
    lines
}

/// Number every line of a text.
pub fn format_numbered_lines(text: &str, start_line: usize) -> (out: String)
    requires
        start_line + lines_of(text@).len() - 1 <= usize::MAX,
    ensures
        out@ == join_lines(numbered_lines(lines_of(text@), start_line as nat)),
{
    let lines = split_lines(chars_of(text).as_slice());
    let mut parts: Vec<String> = Vec::new();
    let mut i: usize = 0;
    while i < lines.len()
        invariant
            i <= lines.len(),
            strs(lines@) == lines_of(text@),
            start_line + lines_of(text@).len() - 1 <= usize::MAX,
            parts@.len() == i,
            forall|j: int|
                0 <= j < i ==> (#[trigger] parts@[j])@ == numbered_lines(
                    lines_of(text@),
                    start_line as nat,
                )[j],
        decreases lines.len() - i,
    {
        proof {
            assert(strs(lines@)[i as int] == lines@[i as int]@);
            assert(strs(lines@).len() == lines@.len());
        }
        parts.push(format_numbered_line(start_line + i, lines[i].as_str()));
        i += 1;
    }
    proof {
        assert(strs(parts@) =~= numbered_lines(lines_of(text@), start_line as nat));
    }
    join_text(parts.as_slice())
}

/// Read a section header.
pub fn parse_hashline_header(line: &str) -> (r: Option<(String, Option<String>)>)
    ensures
        header_view(r) == header_of(line@),
{
    let chars = chars_of(line);
    let t = trim(chars.as_slice());
    if !first_is(t, HL_FILE_PREFIX) || !last_is(t, HL_FILE_SUFFIX) {
        return None;
    }
    let inner = part(t, 1, t.len() - 1);
    let after = count_trailing(inner, CharClass::NotHash);
    if after < inner.len() {
        let path = trim(take(inner, inner.len() - after - 1));
        let tag = trim(skip(inner, inner.len() - after));
        if path.len() == 0 {
            return None;
        }
        if tag.len() == HL_FILE_HASH_LENGTH && all_in_class(tag, CharClass::Hex) {
            return Some((string_of(path), Some(uppercase_string(tag))));
        }
        if tag.len() == 0 {
            return Some((string_of(path), None));
        }
    }
    if inner.len() == 0 {
        None
    } else {
        Some((string_of(inner), None))
    }
}

// ---------------------------------------------------------------------------------------------
// Laws

/// A tag is four characters long, all of them upper-case hexadecimal digits.
pub proof fn law_tag_shape(digest: u32)
    ensures
        tag_of(digest).len() == 4,
        all_of(tag_of(digest), CharClass::Hex),
        uppercase(tag_of(digest)) == tag_of(digest),
{
    assert(uppercase(tag_of(digest)) =~= tag_of(digest));
}

/// Text that has nothing to trim stays as it is.
proof fn lemma_trimmed_is_self(s: Seq<char>)
    requires
        s.len() > 0 ==> !is_white(s[0]) && !is_white(s.last()),
    ensures
        trimmed(s) == s,
{
    lemma_leading_is(s, CharClass::White, 0);
    assert(s.skip(0) =~= s);
    lemma_trailing_is(s, CharClass::White, 0);
    assert(s.take(s.len() as int) =~= s);
}

/// Reading back the header of a path and a tag gives both, the tag in upper case. The tag is any
/// four hexadecimal digits, and the path any that is not blank at either end: it may hold brackets
/// and number signs.
pub proof fn law_header_round_trip(path: Seq<char>, tag: Seq<char>)
    requires
        path.len() > 0,
        !is_white(path[0]),
        !is_white(path.last()),
        tag.len() == 4,
        all_of(tag, CharClass::Hex),
    ensures
        header_of(header_text(path, tag)) == Some((path, Some(uppercase(tag)))),
{
    let line = header_text(path, tag);
    lemma_trimmed_is_self(line);
    let inner = line.subrange(1, line.len() - 1);
    assert(inner =~= path + seq!['#'] + tag);
    assert forall|i: int| inner.len() - 4 <= i < inner.len() implies class_has(
        CharClass::NotHash,
        #[trigger] inner[i],
    ) by {
        assert(inner[i] == tag[i - path.len() - 1]);
        assert(class_has(CharClass::Hex, tag[i - path.len() - 1]));
    }
    lemma_trailing_is(inner, CharClass::NotHash, 4);
    assert(inner.take(inner.len() - 5) =~= path);
    assert(inner.skip(inner.len() - 4) =~= tag);
    lemma_trimmed_is_self(path);
    assert(class_has(CharClass::Hex, tag[0]));
    assert(class_has(CharClass::Hex, tag[3]));
    lemma_trimmed_is_self(tag);
}

proof fn lemma_trimmed_end_idempotent(s: Seq<char>, pad: Seq<char>, k: CharClass)
    requires
        all_of(pad, k),
    ensures
        trimmed_end(s + pad, k) == trimmed_end(s, k),
{
    lemma_trailing(s, k);
    let n = trailing(s, k);
    let t = s + pad;
    assert forall|i: int| t.len() - (n + pad.len()) <= i < t.len() implies class_has(
        k,
        #[trigger] t[i],
    ) by {
        if i < s.len() {
            assert(t[i] == s[i]);
        } else {
            assert(t[i] == pad[i - s.len()]);
        }
    }
    if n < s.len() {
        assert(t[s.len() - n - 1] == s[s.len() - n - 1]);
    }
    lemma_trailing_is(t, k, n + pad.len());
    assert(trimmed_end(t, k) =~= trimmed_end(s, k));
}

/// Spaces, tabs and carriage returns at the ends of lines do not change the tag: adding `pads[i]`
/// to the end of line `i` for every `i` keeps it.
pub proof fn law_tag_ignores_padding(lines: Seq<Seq<char>>, pads: Seq<Seq<char>>)
    requires
        lines.len() > 0,
        lines.len() == pads.len(),
        forall|i: int| 0 <= i < lines.len() ==> all_of(#[trigger] lines[i], CharClass::InLine),
        forall|i: int| 0 <= i < pads.len() ==> all_of(#[trigger] pads[i], CharClass::LinePad),
    ensures
        file_tag(join_lines(Seq::new(lines.len(), |i: int| lines[i] + pads[i]))) == file_tag(
            join_lines(lines),
        ),
{
    let padded = Seq::new(lines.len(), |i: int| lines[i] + pads[i]);
    assert forall|i: int| 0 <= i < padded.len() implies all_of(
        #[trigger] padded[i],
        CharClass::InLine,
    ) by {
        assert forall|j: int| 0 <= j < padded[i].len() implies class_has(
            CharClass::InLine,
            #[trigger] padded[i][j],
        ) by {
            if j < lines[i].len() {
                assert(class_has(CharClass::InLine, lines[i][j]));
            } else {
                assert(class_has(CharClass::LinePad, pads[i][j - lines[i].len()]));
            }
        }
    }
    law_lines_of_join(lines);
    law_lines_of_join(padded);
    assert forall|i: int| 0 <= i < lines.len() implies #[trigger] unpadded(padded)[i] == unpadded(
        lines,
    )[i] by {
        lemma_trimmed_end_idempotent(lines[i], pads[i], CharClass::LinePad);
    }
    assert(unpadded(padded) =~= unpadded(lines));
}

/// The text that a tag is computed from has that tag itself.
pub proof fn law_hash_text_idempotent(text: Seq<char>)
    ensures
        hash_text(hash_text(text)) == hash_text(text),
        file_tag(hash_text(text)) == file_tag(text),
{
    let lines = lines_of(text);
    let kept = unpadded(lines);
    lemma_lines_nonempty(text);
    lemma_lines_in_line(text);
    assert forall|i: int| 0 <= i < kept.len() implies
        all_of(#[trigger] kept[i], CharClass::InLine) by {
        lemma_trailing(lines[i], CharClass::LinePad);
        assert forall|j: int| 0 <= j < kept[i].len() implies class_has(
            CharClass::InLine,
            #[trigger] kept[i][j],
        ) by {
            assert(kept[i][j] == lines[i][j]);
            assert(all_of(lines[i], CharClass::InLine));
            assert(class_has(CharClass::InLine, lines[i][j]));
        }
    }
    law_lines_of_join(kept);
    assert forall|i: int| 0 <= i < kept.len() implies #[trigger] unpadded(kept)[i] == kept[i] by {
        lemma_trailing(lines[i], CharClass::LinePad);
        lemma_trailing_is(kept[i], CharClass::LinePad, 0);
        assert(kept[i].take(kept[i].len() as int) =~= kept[i]);
    }
    assert(unpadded(kept) =~= kept);
}

} // verus!
