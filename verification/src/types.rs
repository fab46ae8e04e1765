//! Data types of the parser, the applier and the patcher, with their models.

use crate::string_map::StringMap;
use crate::text::strs;
use std::collections::BTreeSet;
use vstd::prelude::*;

verus! {

pub const MAX_RANGE_LINES: usize = 100_000;

pub const SNAPSHOT_MAX_BYTES: usize = 4_194_304;

pub const DEFAULT_MAX_PATHS: usize = 256;

pub const DEFAULT_MAX_VERSIONS_PER_PATH: usize = 4;

pub const SEEN_LINE_REVEAL_CAP: usize = 40;

pub const SEEN_LINE_REVEAL_MAX_COLUMNS: usize = 512;

/// A line of the original text, counted from one.
#[derive(Debug, Clone, Copy, PartialEq, Eq, Structural)]
pub struct Anchor {
    pub line: usize,
}

/// A gap between lines.
#[derive(Debug, Clone, Copy, PartialEq, Eq, Structural)]
pub enum Cursor {
    Bof,
    Eof,
    BeforeAnchor { anchor: Anchor },
    AfterAnchor { anchor: Anchor },
}

/// Lines `start` to `end`, both included.
#[derive(Debug, Clone, Copy, PartialEq, Eq, Structural)]
pub struct ParsedRange {
    pub start: Anchor,
    pub end: Anchor,
}

#[derive(Debug, Clone, Copy, PartialEq, Eq, Structural)]
pub enum PasteTarget {
    Gap { cursor: Cursor },
    Span { range: ParsedRange },
}

#[derive(Debug, PartialEq, Eq)]
pub enum FileOp {
    Rem,
    Move { dest: String },
}

#[derive(Debug, Clone, Copy, PartialEq, Eq, Structural)]
pub enum BlockMode {
    Replace,
    InsertAfter,
    Cut,
    PasteAfter,
}

#[derive(Debug, PartialEq, Eq)]
pub enum Edit {
    Insert {
        cursor: Cursor,
        text: String,
        line_num: usize,
        index: usize,
        replacement: bool,
        block_start: Option<usize>,
    },
    Delete { anchor: Anchor, line_num: usize, index: usize },
    Cut { range: ParsedRange, register: Option<String>, line_num: usize, index: usize },
    Paste {
        at: PasteTarget,
        register: Option<String>,
        line_num: usize,
        index: usize,
        block_start: Option<usize>,
    },
    Block {
        anchor: Anchor,
        payloads: Vec<String>,
        mode: BlockMode,
        register: Option<String>,
        line_num: usize,
        index: usize,
    },
}

/// Registers of a batch of edits: the anonymous one, the named ones, and a description of each
/// anonymous cut that no paste has used yet.
#[derive(Debug)]
pub struct Clipboard {
    pub lines: Option<Vec<String>>,
    pub named: StringMap<Vec<String>>,
    pub pending_anon_cuts: Vec<String>,
}

#[derive(Debug, Clone, Copy, PartialEq, Eq, Structural)]
pub struct BlockSpan {
    pub start: usize,
    pub end: usize,
}

#[derive(Debug, Clone, Copy, PartialEq, Eq, Structural)]
pub struct BlockResolution {
    pub line: usize,
    pub start: usize,
    pub end: usize,
}

#[derive(Debug, PartialEq, Eq)]
pub struct ApplyResult {
    pub text: String,
    pub first_changed_line: Option<usize>,
    pub warnings: Vec<String>,
    pub block_resolutions: Vec<BlockResolution>,
}

#[derive(Debug, PartialEq, Eq)]
pub struct Snapshot {
    pub path: String,
    pub text: String,
    pub hash: String,
    pub seen_lines: Option<BTreeSet<usize>>,
}

#[derive(Debug)]
pub struct PatchSection {
    pub path: String,
    pub file_hash: Option<String>,
    pub body: String,
}

#[derive(Debug)]
pub struct Patch {
    pub sections: Vec<PatchSection>,
}

// ---------------------------------------------------------------------------------------------
// Models

/// The text of an optional string.
pub open spec fn opt_text(s: Option<String>) -> Option<Seq<char>> {
    match s {
        Some(t) => Some(t@),
        None => None,
    }
}

/// The value of an optional number.
pub open spec fn opt_nat(n: Option<usize>) -> Option<nat> {
    match n {
        Some(k) => Some(k as nat),
        None => None,
    }
}

pub open spec fn opt_strs(v: Option<Vec<String>>) -> Option<Seq<Seq<char>>> {
    match v {
        Some(t) => Some(strs(t@)),
        None => None,
    }
}

#[verifier::ext_equal]
pub enum FileOpView {
    Rem,
    Move { dest: Seq<char> },
}

impl View for FileOp {
    type V = FileOpView;

    open spec fn view(&self) -> FileOpView {
        match *self {
            FileOp::Rem => FileOpView::Rem,
            FileOp::Move { dest } => FileOpView::Move { dest: dest@ },
        }
    }
}

pub open spec fn opt_file_op(op: Option<FileOp>) -> Option<FileOpView> {
    match op {
        Some(o) => Some(o@),
        None => None,
    }
}

#[verifier::ext_equal]
pub enum EditView {
    Insert {
        cursor: Cursor,
        text: Seq<char>,
        line_num: nat,
        index: nat,
        replacement: bool,
        block_start: Option<usize>,
    },
    Delete { anchor: Anchor, line_num: nat, index: nat },
    Cut { range: ParsedRange, register: Option<Seq<char>>, line_num: nat, index: nat },
    Paste {
        at: PasteTarget,
        register: Option<Seq<char>>,
        line_num: nat,
        index: nat,
        block_start: Option<usize>,
    },
    Block {
        anchor: Anchor,
        payloads: Seq<Seq<char>>,
        mode: BlockMode,
        register: Option<Seq<char>>,
        line_num: nat,
        index: nat,
    },
}

impl View for Edit {
    type V = EditView;

    open spec fn view(&self) -> EditView {
        match *self {
            Edit::Insert { cursor, text, line_num, index, replacement, block_start } => {
                EditView::Insert {
                    cursor,
                    text: text@,
                    line_num: line_num as nat,
                    index: index as nat,
                    replacement,
                    block_start,
                }
            },
            Edit::Delete { anchor, line_num, index } => EditView::Delete {
                anchor,
                line_num: line_num as nat,
                index: index as nat,
            },
            Edit::Cut { range, register, line_num, index } => EditView::Cut {
                range,
                register: opt_text(register),
                line_num: line_num as nat,
                index: index as nat,
            },
            Edit::Paste { at, register, line_num, index, block_start } => EditView::Paste {
                at,
                register: opt_text(register),
                line_num: line_num as nat,
                index: index as nat,
                block_start,
            },
            Edit::Block { anchor, payloads, mode, register, line_num, index } => EditView::Block {
                anchor,
                payloads: strs(payloads@),
                mode,
                register: opt_text(register),
                line_num: line_num as nat,
                index: index as nat,
            },
        }
    }
}

/// The models of a sequence of edits.
pub open spec fn edit_views(v: Seq<Edit>) -> Seq<EditView> {
    Seq::new(v.len(), |i: int| v[i]@)
}

#[verifier::ext_equal]
pub struct ClipboardView {
    pub lines: Option<Seq<Seq<char>>>,
    pub named: Map<Seq<char>, Seq<Seq<char>>>,
    pub pending: Seq<Seq<char>>,
}

/// The contents of named registers.
pub open spec fn named_texts(m: Map<Seq<char>, Vec<String>>) -> Map<Seq<char>, Seq<Seq<char>>> {
    m.map_values(|v: Vec<String>| strs(v@))
}

impl View for Clipboard {
    type V = ClipboardView;

    open spec fn view(&self) -> ClipboardView {
        ClipboardView {
            lines: opt_strs(self.lines),
            named: named_texts(self.named@),
            pending: strs(self.pending_anon_cuts@),
        }
    }
}

/// A clipboard that holds nothing.
pub open spec fn empty_clipboard() -> ClipboardView {
    ClipboardView { lines: None, named: Map::empty(), pending: seq![] }
}

#[verifier::ext_equal]
pub struct ApplyView {
    pub text: Seq<char>,
    pub first_changed_line: Option<nat>,
    pub warnings: Seq<Seq<char>>,
    pub block_resolutions: Seq<BlockResolution>,
}

impl View for ApplyResult {
    type V = ApplyView;

    open spec fn view(&self) -> ApplyView {
        ApplyView {
            text: self.text@,
            first_changed_line: opt_nat(self.first_changed_line),
            warnings: strs(self.warnings@),
            block_resolutions: self.block_resolutions@,
        }
    }
}

#[verifier::ext_equal]
pub struct SnapshotView {
    pub path: Seq<char>,
    pub text: Seq<char>,
    pub hash: Seq<char>,
    pub seen_lines: Option<Set<usize>>,
}

pub open spec fn opt_set(s: Option<BTreeSet<usize>>) -> Option<Set<usize>> {
    match s {
        Some(t) => Some(t@),
        None => None,
    }
}

impl View for Snapshot {
    type V = SnapshotView;

    open spec fn view(&self) -> SnapshotView {
        SnapshotView {
            path: self.path@,
            text: self.text@,
            hash: self.hash@,
            seen_lines: opt_set(self.seen_lines),
        }
    }
}

#[verifier::ext_equal]
pub struct SectionView {
    pub path: Seq<char>,
    pub file_hash: Option<Seq<char>>,
    pub body: Seq<char>,
}

impl View for PatchSection {
    type V = SectionView;

    open spec fn view(&self) -> SectionView {
        SectionView {
            path: self.path@,
            file_hash: opt_text(self.file_hash),
            body: self.body@,
        }
    }
}

pub open spec fn section_views(v: Seq<PatchSection>) -> Seq<SectionView> {
    Seq::new(v.len(), |i: int| v[i]@)
}

/// The anchor of a gap, if it has one.
pub open spec fn cursor_anchors(cursor: Cursor) -> Seq<Anchor> {
    match cursor {
        Cursor::BeforeAnchor { anchor } => seq![anchor],
        Cursor::AfterAnchor { anchor } => seq![anchor],
        Cursor::Bof => seq![],
        Cursor::Eof => seq![],
    }
}

/// One insertion for each of `texts`, numbered from `index` on.
pub open spec fn inserts(
    texts: Seq<Seq<char>>,
    cursor: Cursor,
    line_num: nat,
    index: nat,
    replacement: bool,
    block_start: Option<usize>,
) -> Seq<EditView> {
    Seq::new(
        texts.len(),
        |i: int|
            EditView::Insert {
                cursor,
                text: texts[i],
                line_num,
                index: (index + i) as nat,
                replacement,
                block_start,
            },
    )
}

/// One deletion for each line from `first` to `last`, numbered from `index` on.
pub open spec fn deletes(first: usize, last: usize, line_num: nat, index: nat) -> Seq<EditView> {
    Seq::new(
        if first <= last {
            (last - first + 1) as nat
        } else {
            0
        },
        |i: int|
            EditView::Delete {
                anchor: Anchor { line: (first + i) as usize },
                line_num,
                index: (index + i) as nat,
            },
    )
}

impl EditView {
    pub open spec fn line_num(self) -> nat {
        match self {
            EditView::Insert { line_num, .. } => line_num,
            EditView::Delete { line_num, .. } => line_num,
            EditView::Cut { line_num, .. } => line_num,
            EditView::Paste { line_num, .. } => line_num,
            EditView::Block { line_num, .. } => line_num,
        }
    }

    /// The lines of the original text that the edit names.
    pub open spec fn anchors(self) -> Seq<Anchor> {
        match self {
            EditView::Insert { cursor, .. } => cursor_anchors(cursor),
            EditView::Delete { anchor, .. } => seq![anchor],
            EditView::Cut { range, .. } => seq![range.start, range.end],
            EditView::Paste { at, .. } => match at {
                PasteTarget::Gap { cursor } => cursor_anchors(cursor),
                PasteTarget::Span { range } => seq![range.start, range.end],
            },
            EditView::Block { anchor, .. } => seq![anchor],
        }
    }
}

// ---------------------------------------------------------------------------------------------
// Copies

pub fn copy_opt_string(s: &Option<String>) -> (r: Option<String>)
    ensures
        opt_text(r) == opt_text(*s),
{
    match s {
        Some(t) => Some(t.clone()),
        None => None,
    }
}

pub fn copy_strings(v: &[String]) -> (out: Vec<String>)
    ensures
        strs(out@) == strs(v@),
        out@.len() == v@.len(),
{
    let mut out: Vec<String> = Vec::new();
    push_strings(&mut out, v);
    proof {
        assert(strs(out@) =~= strs(v@));
    }
    out
}

pub fn push_strings(out: &mut Vec<String>, v: &[String])
    ensures
        strs(final(out)@) == strs(old(out)@) + strs(v@),
        final(out)@.len() == old(out)@.len() + v@.len(),
{
    let mut i: usize = 0;
    while i < v.len()
        invariant
            i <= v.len(),
            out@.len() == old(out)@.len() + i,
            forall|j: int| 0 <= j < old(out)@.len() ==> out@[j] == old(out)@[j],
            forall|j: int| 0 <= j < i ==> (#[trigger] v@[j])@ == out@[old(out)@.len() + j]@,
        decreases v.len() - i,
    {
        out.push(v[i].clone());
        i += 1;
    }
    proof {
        assert(strs(out@) =~= strs(old(out)@) + strs(v@));
    }
}

impl Clone for FileOp {
    fn clone(&self) -> (r: Self)
        ensures
            r@ == self@,
    {
        match self {
            FileOp::Rem => FileOp::Rem,
            FileOp::Move { dest } => FileOp::Move { dest: dest.clone() },
        }
    }
}

impl Clone for Edit {
    fn clone(&self) -> (r: Self)
        ensures
            r@ == self@,
    {
        match self {
            Edit::Insert { cursor, text, line_num, index, replacement, block_start } => {
                Edit::Insert {
                    cursor: *cursor,
                    text: text.clone(),
                    line_num: *line_num,
                    index: *index,
                    replacement: *replacement,
                    block_start: *block_start,
                }
            },
            Edit::Delete { anchor, line_num, index } => Edit::Delete {
                anchor: *anchor,
                line_num: *line_num,
                index: *index,
            },
            Edit::Cut { range, register, line_num, index } => Edit::Cut {
                range: *range,
                register: copy_opt_string(register),
                line_num: *line_num,
                index: *index,
            },
            Edit::Paste { at, register, line_num, index, block_start } => Edit::Paste {
                at: *at,
                register: copy_opt_string(register),
                line_num: *line_num,
                index: *index,
                block_start: *block_start,
            },
            Edit::Block { anchor, payloads, mode, register, line_num, index } => Edit::Block {
                anchor: *anchor,
                payloads: copy_strings(payloads.as_slice()),
                mode: *mode,
                register: copy_opt_string(register),
                line_num: *line_num,
                index: *index,
            },
        }
    }
}

pub fn copy_edits(edits: &[Edit]) -> (out: Vec<Edit>)
    ensures
        edit_views(out@) == edit_views(edits@),
{
    let mut out: Vec<Edit> = Vec::new();
    let mut i: usize = 0;
    while i < edits.len()
        invariant
            i <= edits.len(),
            out@.len() == i,
            forall|j: int| 0 <= j < i ==> (#[trigger] out@[j])@ == edits@[j]@,
        decreases edits.len() - i,
    {
        out.push(edits[i].clone());
        i += 1;
    }
    proof {
        assert(edit_views(out@) =~= edit_views(edits@));
    }
    out
}

/// Append one insertion for each of `texts`; gives the next free number.
pub fn push_inserts(
    out: &mut Vec<Edit>,
    texts: &[String],
    cursor: Cursor,
    line_num: usize,
    index: usize,
    replacement: bool,
    block_start: Option<usize>,
) -> (next: usize)
    requires
        index <= old(out)@.len(),
    ensures
        edit_views(final(out)@) == edit_views(old(out)@) + inserts(
            strs(texts@),
            cursor,
            line_num as nat,
            index as nat,
            replacement,
            block_start,
        ),
        next == index + texts@.len(),
        final(out)@.len() == old(out)@.len() + texts@.len(),
{
    let mut i: usize = 0;
    let mut next = index;
    let ghost more = inserts(
        strs(texts@),
        cursor,
        line_num as nat,
        index as nat,
        replacement,
        block_start,
    );
    proof {
        assert(more.take(0) =~= seq![]);
    }
    while i < texts.len()
        invariant
            i <= texts.len(),
            index <= old(out)@.len(),
            next == index + i,
            out@.len() == old(out)@.len() + i,
            more == inserts(
                strs(texts@),
                cursor,
                line_num as nat,
                index as nat,
                replacement,
                block_start,
            ),
            edit_views(out@) =~= edit_views(old(out)@) + more.take(i as int),
        decreases texts.len() - i,
    {
        let ghost before = out@;
        let edit = Edit::Insert {
            cursor,
            text: texts[i].clone(),
            line_num,
            index: next,
            replacement,
            block_start,
        };
        proof {
            assert(edit@ == more[i as int]);
        }
        out.push(edit);
        proof {
            assert(out@.len() == out.len());
            assert(edit_views(out@) =~= edit_views(before).push(edit@));
            assert(more.take(i + 1) =~= more.take(i as int).push(more[i as int]));
        }
        next += 1;
        i += 1;
    }
    proof {
        assert(more.take(i as int) =~= more);
    }
    next
}

/// Append one deletion for each line from `first` to `last`; gives the next free number.
pub fn push_deletes(
    out: &mut Vec<Edit>,
    first: usize,
    last: usize,
    line_num: usize,
    index: usize,
) -> (next: usize)
    requires
        index <= old(out)@.len(),
    ensures
        edit_views(final(out)@) == edit_views(old(out)@) + deletes(
            first,
            last,
            line_num as nat,
            index as nat,
        ),
        next == index + deletes(first, last, line_num as nat, index as nat).len(),
        final(out)@.len() - old(out)@.len() == next - index,
{
    let ghost more = deletes(first, last, line_num as nat, index as nat);
    let mut next = index;
    let mut line = first;
    let mut done = first > last;
    proof {
        assert(more.take(0) =~= seq![]);
        assert(done ==> more =~= seq![]);
    }
    while !done
        invariant
            index <= old(out)@.len(),
            more == deletes(first, last, line_num as nat, index as nat),
            next - index == out@.len() - old(out)@.len(),
            next >= index,
            done ==> next - index == more.len(),
            !done ==> first <= line <= last && next - index == line - first,
            edit_views(out@) =~= edit_views(old(out)@) + more.take(next - index),
        decreases last - line + if done { 0int } else { 1 },
    {
        let ghost before = out@;
        let edit = Edit::Delete { anchor: Anchor { line }, line_num, index: next };
        proof {
            assert(edit@ == more[next - index]);
        }
        out.push(edit);
        proof {
            assert(out@.len() == out.len());
            assert(edit_views(out@) =~= edit_views(before).push(edit@));
            assert(more.take(next - index + 1) =~= more.take(next - index).push(edit@));
        }
        next += 1;
        if line == last {
            done = true;
        } else {
            line += 1;
        }
    }
    proof {
        assert(more.take(next - index) =~= more);
    }
    next
}

pub proof fn lemma_named_insert(
    m: Map<Seq<char>, Vec<String>>,
    k: Seq<char>,
    v: Vec<String>,
)
    ensures
        named_texts(m.insert(k, v)) == named_texts(m).insert(k, strs(v@)),
{
    assert(named_texts(m.insert(k, v)) =~= named_texts(m).insert(k, strs(v@)));
}

/// Bind in `into` every register of `from` to a copy of its lines.
pub fn copy_registers(from: &StringMap<Vec<String>>, into: &mut StringMap<Vec<String>>)
    ensures
        named_texts(final(into)@) == named_texts(old(into)@).union_prefer_right(
            named_texts(from@),
        ),
{
    let keys = from.keys();
    let ghost names = strs(keys@);
    let ghost first = named_texts(into@);
    let ghost source = named_texts(from@);
    let mut i: usize = 0;
    proof {
        assert(names.take(0) =~= seq![]);
    }
    while i < keys.len()
        invariant
            i <= keys.len(),
            names == strs(keys@),
            source == named_texts(from@),
            forall|k: Seq<char>| #[trigger] from@.contains_key(k) <==> names.contains(k),
            named_texts(into@) == copied_over(first, source, names.take(i as int)),
        decreases keys.len() - i,
    {
        let key = keys[i].as_str();
        proof {
            assert(names[i as int] == key@);
            assert(names.contains(key@));
            assert(names.take(i + 1).drop_last() =~= names.take(i as int));
        }
        if let Some(lines) = from.get(key) {
            let lines = copy_strings(lines.as_slice());
            proof {
                lemma_named_insert(into@, key@, lines);
            }
            into.insert(key, lines);
        }
        i += 1;
    }
    proof {
        assert(names.take(i as int) =~= names);
        let done = named_texts(into@);
        let both = first.union_prefer_right(source);
        assert forall|k: Seq<char>| #[trigger] done.contains_key(k) == both.contains_key(k) && (
        done.contains_key(k) ==> done[k] == both[k]) by {
            lemma_copied_over(first, source, names, k);
            assert(source.contains_key(k) == from@.contains_key(k));
        }
        assert(done =~= both);
    }
}

/// The registers with those of `names` taken from `source`.
spec fn copied_over(
    into: Map<Seq<char>, Seq<Seq<char>>>,
    source: Map<Seq<char>, Seq<Seq<char>>>,
    names: Seq<Seq<char>>,
) -> Map<Seq<char>, Seq<Seq<char>>>
    decreases names.len(),
{
    if names.len() == 0 {
        into
    } else {
        copied_over(into, source, names.drop_last()).insert(names.last(), source[names.last()])
    }
}

proof fn lemma_copied_over(
    into: Map<Seq<char>, Seq<Seq<char>>>,
    source: Map<Seq<char>, Seq<Seq<char>>>,
    names: Seq<Seq<char>>,
    k: Seq<char>,
)
    ensures
        ({
            let done = copied_over(into, source, names);
            if names.contains(k) {
                done.contains_key(k) && done[k] == source[k]
            } else {
                done.contains_key(k) == into.contains_key(k) && done[k] == into[k]
            }
        }),
    decreases names.len(),
{
    if names.len() > 0 {
        let less = names.drop_last();
        lemma_copied_over(into, source, less, k);
        if less.contains(k) {
            let i = choose|i: int| 0 <= i < less.len() && less[i] == k;
            assert(names[i] == k);
        } else if names.contains(k) {
            let i = choose|i: int| 0 <= i < names.len() && names[i] == k;
            if i < less.len() {
                assert(less[i] == k);
            }
        }
        assert(names[names.len() - 1] == names.last());
    }
}

impl Clone for Clipboard {
    fn clone(&self) -> (r: Self)
        ensures
            r@ == self@,
    {
        let mut named: StringMap<Vec<String>> = StringMap::new();
        copy_registers(&self.named, &mut named);
        let r = Clipboard {
            lines: match &self.lines {
                Some(lines) => Some(copy_strings(lines.as_slice())),
                None => None,
            },
            named,
            pending_anon_cuts: copy_strings(self.pending_anon_cuts.as_slice()),
        };
        proof {
            assert(r@.named =~= self@.named);
        }
        r
    }
}

impl Clone for PatchSection {
    fn clone(&self) -> (r: Self)
        ensures
            r@ == self@,
    {
        PatchSection {
            path: self.path.clone(),
            file_hash: copy_opt_string(&self.file_hash),
            body: self.body.clone(),
        }
    }
}

impl Clone for Patch {
    fn clone(&self) -> (r: Self)
        ensures
            section_views(r.sections@) == section_views(self.sections@),
    {
        let mut sections: Vec<PatchSection> = Vec::new();
        let mut i: usize = 0;
        while i < self.sections.len()
            invariant
                i <= self.sections.len(),
                sections@.len() == i,
                forall|k: int| 0 <= k < i ==> (#[trigger] sections@[k])@ == self.sections@[k]@,
            decreases self.sections.len() - i,
        {
            sections.push(self.sections[i].clone());
            i += 1;
        }
        proof {
            assert(section_views(sections@) =~= section_views(self.sections@));
        }
        Patch { sections }
    }
}

impl Clone for Snapshot {
    fn clone(&self) -> (r: Self)
        ensures
            r@ == self@,
    {
        Snapshot {
            path: self.path.clone(),
            text: self.text.clone(),
            hash: self.hash.clone(),
            seen_lines: match &self.seen_lines {
                Some(s) => Some(s.clone()),
                None => None,
            },
        }
    }
}

pub fn copy_resolutions(v: &[BlockResolution]) -> (out: Vec<BlockResolution>)
    ensures
        out@ == v@,
{
    let mut out: Vec<BlockResolution> = Vec::new();
    let mut i: usize = 0;
    while i < v.len()
        invariant
            i <= v.len(),
            out@ == v@.take(i as int),
        decreases v.len() - i,
    {
        out.push(v[i]);
        i += 1;
    }
    proof {
        assert(v@.take(i as int) =~= v@);
    }
    out
}

impl Clone for ApplyResult {
    fn clone(&self) -> (r: Self)
        ensures
            r@ == self@,
    {
        ApplyResult {
            text: self.text.clone(),
            first_changed_line: self.first_changed_line,
            warnings: copy_strings(self.warnings.as_slice()),
            block_resolutions: copy_resolutions(self.block_resolutions.as_slice()),
        }
    }
}

impl Default for Clipboard {
    fn default() -> (r: Self)
        ensures
            r@ == empty_clipboard(),
    {
        let r = Clipboard { lines: None, named: StringMap::new(), pending_anon_cuts: Vec::new() };
        proof {
            assert(r@ =~= empty_clipboard());
        }
        r
    }
}

impl Default for ApplyResult {
    fn default() -> (r: Self)
        ensures
            r@ == (ApplyView {
                text: seq![],
                first_changed_line: None,
                warnings: seq![],
                block_resolutions: seq![],
            }),
    {
        let r = ApplyResult {
            text: String::new(),
            first_changed_line: None,
            warnings: Vec::new(),
            block_resolutions: Vec::new(),
        };
        proof {
            assert(strs(r.warnings@) =~= seq![]);
        }
        r
    }
}

impl Edit {
    /// The line of the patch that the edit came from.
    pub fn line_num(&self) -> (n: usize)
        ensures
            n == self@.line_num(),
    {
        match self {
            Edit::Insert { line_num, .. } => *line_num,
            Edit::Delete { line_num, .. } => *line_num,
            Edit::Cut { line_num, .. } => *line_num,
            Edit::Paste { line_num, .. } => *line_num,
            Edit::Block { line_num, .. } => *line_num,
        }
    }

    /// The lines of the original text that the edit names.
    pub fn anchors(&self) -> (out: Vec<Anchor>)
        ensures
            out@ == self@.anchors(),
    {
        let mut out: Vec<Anchor> = Vec::new();
        match self {
            Edit::Insert { cursor, .. } => push_cursor_anchors(&mut out, *cursor),
            Edit::Delete { anchor, .. } => out.push(*anchor),
            Edit::Cut { range, .. } => {
                out.push(range.start);
                out.push(range.end);
            },
            Edit::Paste { at, .. } => match at {
                PasteTarget::Gap { cursor } => push_cursor_anchors(&mut out, *cursor),
                PasteTarget::Span { range } => {
                    out.push(range.start);
                    out.push(range.end);
                },
            },
            Edit::Block { anchor, .. } => out.push(*anchor),
        }
        proof {
            assert(out@ =~= self@.anchors());
        }
        out
    }

    /// Whether the edit names a line of the original text.
    pub fn is_anchor_scoped(&self) -> (yes: bool)
        ensures
            yes == (self@.anchors().len() > 0),
    {
        self.anchors().len() > 0
    }
}

fn push_cursor_anchors(out: &mut Vec<Anchor>, cursor: Cursor)
    ensures
        final(out)@ == old(out)@ + cursor_anchors(cursor),
{
    match cursor {
        Cursor::BeforeAnchor { anchor } => out.push(anchor),
        Cursor::AfterAnchor { anchor } => out.push(anchor),
        Cursor::Bof => {},
        Cursor::Eof => {},
    }
    proof {
        assert(out@ =~= old(out)@ + cursor_anchors(cursor));
    }
}

} // verus!
