//! Per-session snapshot store binding 4-hex tags to full-file text.

use crate::format::{compute_file_hash, file_tag};
use crate::string_map::StringMap;
use crate::text::{same_text, strs};
use crate::types::{Snapshot, SnapshotView, DEFAULT_MAX_PATHS, DEFAULT_MAX_VERSIONS_PER_PATH};
use std::collections::BTreeSet;
use vstd::prelude::*;

verus! {

/// Snapshots of files, most recent first, and the paths in the order of their last use.
#[derive(Debug)]
pub struct SnapshotStore {
    max_paths: usize,
    max_versions_per_path: usize,
    order: Vec<String>,
    versions: StringMap<Vec<Snapshot>>,
}

// ---------------------------------------------------------------------------------------------
// Model

#[verifier::ext_equal]
pub struct StoreView {
    pub max_paths: nat,
    pub max_versions: nat,
    /// Paths, the one used last first.
    pub order: Seq<Seq<char>>,
    /// The snapshots of each path, the most recent first.
    pub versions: Map<Seq<char>, Seq<SnapshotView>>,
}

pub open spec fn snapshot_views(v: Seq<Snapshot>) -> Seq<SnapshotView> {
    Seq::new(v.len(), |i: int| v[i]@)
}

pub open spec fn history_views(m: Map<Seq<char>, Vec<Snapshot>>) -> Map<
    Seq<char>,
    Seq<SnapshotView>,
> {
    m.map_values(|v: Vec<Snapshot>| snapshot_views(v@))
}

impl View for SnapshotStore {
    type V = StoreView;

    closed spec fn view(&self) -> StoreView {
        StoreView {
            max_paths: self.max_paths as nat,
            max_versions: self.max_versions_per_path as nat,
            order: strs(self.order@),
            versions: history_views(self.versions@),
        }
    }
}

/// The index of the first element equal to `x`, or the length.
pub open spec fn index_in(s: Seq<Seq<char>>, x: Seq<char>) -> int
    decreases s.len(),
{
    if s.len() == 0 || s[0] == x {
        0
    } else {
        1 + index_in(s.skip(1), x)
    }
}

/// `s` without the first element equal to `x`.
pub open spec fn without_first(s: Seq<Seq<char>>, x: Seq<char>) -> Seq<Seq<char>> {
    let i = index_in(s, x);
    if i < s.len() {
        s.remove(i)
    } else {
        s
    }
}

/// The snapshots of all paths but those that are gone.
pub open spec fn forgetting(
    versions: Map<Seq<char>, Seq<SnapshotView>>,
    gone: Seq<Seq<char>>,
) -> Map<Seq<char>, Seq<SnapshotView>> {
    Map::new(
        |k: Seq<char>| versions.contains_key(k) && !gone.contains(k),
        |k: Seq<char>| versions[k],
    )
}

/// `path` becomes the path used last; of more paths than fit, those used longest ago are forgotten
/// with their snapshots.
pub open spec fn touched(store: StoreView, path: Seq<char>) -> StoreView {
    let order = seq![path] + without_first(store.order, path);
    if order.len() <= store.max_paths {
        StoreView { order, ..store }
    } else {
        StoreView {
            order: order.take(store.max_paths as int),
            versions: forgetting(store.versions, order.skip(store.max_paths as int)),
            ..store
        }
    }
}

/// The snapshots of a path.
pub open spec fn history(store: StoreView, path: Seq<char>) -> Seq<SnapshotView> {
    if store.versions.contains_key(path) {
        store.versions[path]
    } else {
        seq![]
    }
}

/// What a search for a snapshot goes by.
pub enum Sought {
    Hash(Seq<char>),
    Text(Seq<char>),
    Both { hash: Seq<char>, text: Seq<char> },
}

pub open spec fn is_sought(v: SnapshotView, sought: Sought) -> bool {
    match sought {
        Sought::Hash(hash) => v.hash == hash,
        Sought::Text(text) => v.text == text,
        Sought::Both { hash, text } => v.hash == hash && v.text == text,
    }
}

/// The index of the first snapshot that is sought, or the length.
pub open spec fn find_in(h: Seq<SnapshotView>, sought: Sought) -> int
    decreases h.len(),
{
    if h.len() == 0 || is_sought(h[0], sought) {
        0
    } else {
        1 + find_in(h.skip(1), sought)
    }
}

/// The most recent snapshot of a path that is sought.
pub open spec fn found(store: StoreView, path: Seq<char>, sought: Sought) -> Option<SnapshotView> {
    let h = history(store, path);
    let i = find_in(h, sought);
    if i < h.len() {
        Some(h[i])
    } else {
        None
    }
}

pub open spec fn head_of(store: StoreView, path: Seq<char>) -> Option<SnapshotView> {
    let h = history(store, path);
    if h.len() > 0 {
        Some(h[0])
    } else {
        None
    }
}

/// The view of an optional list of lines.
pub open spec fn opt_lines(lines: Option<&[usize]>) -> Option<Seq<usize>> {
    match lines {
        Some(l) => Some(l@),
        None => None,
    }
}

/// A snapshot of which more lines have been seen.
pub open spec fn seen_more(v: SnapshotView, lines: Option<Seq<usize>>) -> SnapshotView {
    match lines {
        None => v,
        Some(lines) => SnapshotView {
            seen_lines: Some(
                match v.seen_lines {
                    Some(seen) => seen.union(lines.to_set()),
                    None => lines.to_set(),
                },
            ),
            ..v
        },
    }
}

pub open spec fn truncated(h: Seq<SnapshotView>, max: nat) -> Seq<SnapshotView> {
    if h.len() <= max {
        h
    } else {
        h.take(max as int)
    }
}

pub open spec fn with_history(store: StoreView, path: Seq<char>, h: Seq<SnapshotView>) -> StoreView {
    StoreView { versions: store.versions.insert(path, h), ..store }
}

/// A text becomes the most recent snapshot of its path. A snapshot of the same text is moved to the
/// front; else the oldest one over the limit is forgotten.
pub open spec fn recorded(
    store: StoreView,
    path: Seq<char>,
    text: Seq<char>,
    seen: Option<Seq<usize>>,
) -> StoreView {
    let tag = file_tag(text);
    let now = touched(store, path);
    let h = history(now, path);
    let at = find_in(h, Sought::Both { hash: tag, text });
    with_history(
        now,
        path,
        if at < h.len() {
            seq![seen_more(h[at], seen)] + h.remove(at)
        } else {
            truncated(
                seq![
                    seen_more(SnapshotView { path, text, hash: tag, seen_lines: None }, seen),
                ] + h,
                store.max_versions,
            )
        },
    )
}

/// More lines have been seen of the snapshot with a tag.
pub open spec fn seen_recorded(
    store: StoreView,
    path: Seq<char>,
    hash: Seq<char>,
    lines: Seq<usize>,
) -> StoreView {
    let h = history(store, path);
    let at = find_in(h, Sought::Hash(hash));
    if at < h.len() {
        with_history(store, path, h.update(at, seen_more(h[at], Some(lines))))
    } else {
        store
    }
}

pub open spec fn invalidated(store: StoreView, path: Seq<char>) -> StoreView {
    StoreView {
        order: without_first(store.order, path),
        versions: store.versions.remove(path),
        ..store
    }
}

pub open spec fn at_path(h: Seq<SnapshotView>, path: Seq<char>) -> Seq<SnapshotView> {
    Seq::new(h.len(), |i: int| SnapshotView { path, ..h[i] })
}

/// The first snapshot with each tag.
pub open spec fn distinct_hashes(h: Seq<SnapshotView>) -> Seq<SnapshotView>
    decreases h.len(),
{
    if h.len() == 0 {
        seq![]
    } else {
        let front = distinct_hashes(h.drop_last());
        if find_in(front, Sought::Hash(h.last().hash)) < front.len() {
            front
        } else {
            front.push(h.last())
        }
    }
}

/// The snapshots of one path become those of another. Where that had some, both are merged.
pub open spec fn relocated(store: StoreView, from: Seq<char>, to: Seq<char>) -> StoreView {
    if !store.versions.contains_key(from) {
        store
    } else {
        let moved = at_path(store.versions[from], to);
        let rest = invalidated(store, from);
        touched(
            with_history(
                rest,
                to,
                if rest.versions.contains_key(to) {
                    truncated(
                        distinct_hashes(moved + rest.versions[to]),
                        store.max_versions,
                    )
                } else {
                    moved
                },
            ),
            to,
        )
    }
}

pub open spec fn empty_store(max_paths: nat, max_versions: nat) -> StoreView {
    StoreView { max_paths, max_versions, order: seq![], versions: Map::empty() }
}

/// The snapshots with a tag among those of `paths`, path by path.
pub open spec fn found_under(store: StoreView, paths: Seq<Seq<char>>, hash: Seq<char>) -> Seq<
    SnapshotView,
>
    decreases paths.len(),
{
    if paths.len() == 0 {
        seq![]
    } else {
        found_under(store, paths.drop_last(), hash) + with_hash(
            history(store, paths.last()),
            hash,
        )
    }
}

pub open spec fn with_hash(h: Seq<SnapshotView>, hash: Seq<char>) -> Seq<SnapshotView>
    decreases h.len(),
{
    if h.len() == 0 {
        seq![]
    } else {
        let front = with_hash(h.drop_last(), hash);
        if h.last().hash == hash {
            front.push(h.last())
        } else {
            front
        }
    }
}

/// Every path of the store, each once.
pub open spec fn lists_paths(paths: Seq<Seq<char>>, store: StoreView) -> bool {
    &&& paths.no_duplicates()
    &&& forall|k: Seq<char>| #[trigger] paths.contains(k) <==> store.versions.contains_key(k)
}

// ---------------------------------------------------------------------------------------------
// Facts

pub proof fn lemma_index_in(s: Seq<Seq<char>>, x: Seq<char>)
    ensures
        0 <= index_in(s, x) <= s.len(),
        forall|i: int| 0 <= i < index_in(s, x) ==> #[trigger] s[i] != x,
        index_in(s, x) < s.len() ==> s[index_in(s, x)] == x,
    decreases s.len(),
{
    if s.len() > 0 && s[0] != x {
        let t = s.skip(1);
        lemma_index_in(t, x);
        assert forall|i: int| 0 <= i < index_in(s, x) implies #[trigger] s[i] != x by {
            if i > 0 {
                assert(s[i] == t[i - 1]);
            }
        }
        if index_in(t, x) < t.len() {
            assert(s[index_in(s, x)] == t[index_in(t, x)]);
        }
    }
}

pub proof fn lemma_index_in_is(s: Seq<Seq<char>>, x: Seq<char>, n: int)
    requires
        0 <= n <= s.len(),
        forall|i: int| 0 <= i < n ==> #[trigger] s[i] != x,
        n < s.len() ==> s[n] == x,
    ensures
        index_in(s, x) == n,
{
    lemma_index_in(s, x);
    let m = index_in(s, x);
    if m < n {
        assert(s[m] != x);
    }
}

pub proof fn lemma_find_in(h: Seq<SnapshotView>, sought: Sought)
    ensures
        0 <= find_in(h, sought) <= h.len(),
        forall|i: int| 0 <= i < find_in(h, sought) ==> !is_sought(#[trigger] h[i], sought),
        find_in(h, sought) < h.len() ==> is_sought(h[find_in(h, sought)], sought),
    decreases h.len(),
{
    if h.len() > 0 && !is_sought(h[0], sought) {
        let t = h.skip(1);
        lemma_find_in(t, sought);
        assert forall|i: int| 0 <= i < find_in(h, sought) implies !is_sought(
            #[trigger] h[i],
            sought,
        ) by {
            if i > 0 {
                assert(h[i] == t[i - 1]);
            }
        }
        if find_in(t, sought) < t.len() {
            assert(h[find_in(h, sought)] == t[find_in(t, sought)]);
        }
    }
}

proof fn lemma_find_in_is(h: Seq<SnapshotView>, sought: Sought, n: int)
    requires
        0 <= n <= h.len(),
        forall|i: int| 0 <= i < n ==> !is_sought(#[trigger] h[i], sought),
        n < h.len() ==> is_sought(h[n], sought),
    ensures
        find_in(h, sought) == n,
{
    lemma_find_in(h, sought);
    let m = find_in(h, sought);
    if m < n {
        assert(!is_sought(h[m], sought));
    }
}

proof fn lemma_history_insert(m: Map<Seq<char>, Vec<Snapshot>>, k: Seq<char>, v: Vec<Snapshot>)
    ensures
        history_views(m.insert(k, v)) == history_views(m).insert(k, snapshot_views(v@)),
{
    assert(history_views(m.insert(k, v)) =~= history_views(m).insert(k, snapshot_views(v@)));
}

proof fn lemma_history_remove(m: Map<Seq<char>, Vec<Snapshot>>, k: Seq<char>)
    ensures
        history_views(m.remove(k)) == history_views(m).remove(k),
{
    assert(history_views(m.remove(k)) =~= history_views(m).remove(k));
}

proof fn lemma_forgetting_more(
    versions: Map<Seq<char>, Seq<SnapshotView>>,
    order: Seq<Seq<char>>,
    n: int,
)
    requires
        0 <= n < order.len(),
    ensures
        forgetting(versions, order.skip(n)) == forgetting(versions, order.skip(n + 1)).remove(
            order[n],
        ),
{
    let a = order.skip(n);
    let b = order.skip(n + 1);
    assert forall|k: Seq<char>| a.contains(k) == (b.contains(k) || k == order[n]) by {
        if a.contains(k) {
            let i = choose|i: int| 0 <= i < a.len() && a[i] == k;
            if i > 0 {
                assert(b[i - 1] == k);
            }
        }
        if b.contains(k) {
            let i = choose|i: int| 0 <= i < b.len() && b[i] == k;
            assert(a[i + 1] == k);
        }
        if k == order[n] {
            assert(a[0] == k);
        }
    }
    assert(forgetting(versions, a) =~= forgetting(versions, b).remove(order[n]));
}

// ---------------------------------------------------------------------------------------------
// Executable functions

/// Add to the lines of a snapshot that have been seen.
pub(crate) fn merge_seen_lines(snapshot: &mut Snapshot, lines: Option<&[usize]>)
    ensures
        final(snapshot)@ == seen_more(
            old(snapshot)@,
            opt_lines(lines),
        ),
{
    broadcast use vstd::std_specs::btree::group_btree_axioms;

    if let Some(lines) = lines {
        let mut seen: BTreeSet<usize> = match snapshot.seen_lines.take() {
            Some(seen) => seen,
            None => BTreeSet::new(),
        };
        let ghost before = seen@;
        let mut i: usize = 0;
        proof {
            assert(lines@.take(0).to_set() =~= Set::empty());
            assert(before.union(Set::empty()) =~= before);
        }
        while i < lines.len()
            invariant
                i <= lines.len(),
                seen@ == before.union(lines@.take(i as int).to_set()),
            decreases lines.len() - i,
        {
            seen.insert(lines[i]);
            proof {
                let a = lines@.take(i as int);
                let b = lines@.take(i + 1);
                assert(b =~= a.push(lines@[i as int]));
                assert forall|x: usize| b.to_set().contains(x) == (a.to_set().contains(x) || x
                    == lines@[i as int]) by {
                    if b.contains(x) {
                        let k = choose|k: int| 0 <= k < b.len() && b[k] == x;
                        if k < a.len() {
                            assert(a[k] == x);
                        }
                    }
                    if a.contains(x) {
                        let k = choose|k: int| 0 <= k < a.len() && a[k] == x;
                        assert(b[k] == x);
                    }
                    if x == lines@[i as int] {
                        assert(b[i as int] == x);
                    }
                }
                assert(before.union(b.to_set()) =~= before.union(a.to_set()).insert(
                    lines@[i as int],
                ));
            }
            i += 1;
        }
        proof {
            assert(lines@.take(i as int) =~= lines@);
            assert(old(snapshot)@.seen_lines is None ==> seen@ =~= lines@.to_set());
        }
        snapshot.seen_lines = Some(seen);
    }
}

/// The index of the first snapshot with a hash, or a text, or both.
fn position_of(h: &Vec<Snapshot>, hash: Option<&str>, text: Option<&str>) -> (n: usize)
    requires
        hash is Some || text is Some,
    ensures
        n <= h@.len(),
        n == find_in(snapshot_views(h@), sought_by(hash, text)),
{
    let ghost sought = sought_by(hash, text);
    let ghost views = snapshot_views(h@);
    let mut n: usize = 0;
    while n < h.len()
        invariant
            n <= h@.len(),
            views == snapshot_views(h@),
            sought == sought_by(hash, text),
            hash is Some || text is Some,
            forall|i: int| 0 <= i < n ==> !is_sought(#[trigger] views[i], sought),
        decreases h.len() - n,
    {
        let version = &h[n];
        let same_hash = match hash {
            Some(hash) => same_text(version.hash.as_str(), hash),
            None => true,
        };
        let same = same_hash && match text {
            Some(text) => same_text(version.text.as_str(), text),
            None => true,
        };
        proof {
            assert(views[n as int] == version@);
        }
        if same {
            proof {
                lemma_find_in_is(views, sought, n as int);
            }
            return n;
        }
        n += 1;
    }
    proof {
        lemma_find_in_is(views, sought, n as int);
    }
    n
}

spec fn sought_by(hash: Option<&str>, text: Option<&str>) -> Sought {
    match (hash, text) {
        (Some(hash), Some(text)) => Sought::Both { hash: hash@, text: text@ },
        (Some(hash), None) => Sought::Hash(hash@),
        (None, Some(text)) => Sought::Text(text@),
        (None, None) => Sought::Hash(seq![]),
    }
}

impl Default for SnapshotStore {
    fn default() -> (r: Self)
        ensures
            r@ == empty_store(DEFAULT_MAX_PATHS as nat, DEFAULT_MAX_VERSIONS_PER_PATH as nat),
    {
        SnapshotStore::new()
    }
}

impl SnapshotStore {
    pub fn new() -> (r: Self)
        ensures
            r@ == empty_store(DEFAULT_MAX_PATHS as nat, DEFAULT_MAX_VERSIONS_PER_PATH as nat),
    {
        Self::with_limits(DEFAULT_MAX_PATHS, DEFAULT_MAX_VERSIONS_PER_PATH)
    }

    pub fn with_limits(max_paths: usize, max_versions_per_path: usize) -> (r: Self)
        ensures
            r@ == empty_store(max_paths as nat, max_versions_per_path as nat),
    {
        let r = SnapshotStore {
            max_paths,
            max_versions_per_path,
            order: Vec::new(),
            versions: StringMap::new(),
        };
        proof {
            assert(r@ =~= empty_store(max_paths as nat, max_versions_per_path as nat));
        }
        r
    }

    /// Take a path out of the order of use.
    fn forget_order(&mut self, path: &str)
        ensures
            final(self)@ == (StoreView {
                order: without_first(old(self)@.order, path@),
                ..old(self)@
            }),
    {
        let ghost order = strs(self.order@);
        let mut i: usize = 0;
        while i < self.order.len()
            invariant
                i <= self.order.len(),
                *self == *old(self),
                order == strs(self.order@),
                forall|k: int| 0 <= k < i ==> #[trigger] order[k] != path@,
            decreases self.order.len() - i,
        {
            proof {
                assert(order[i as int] == self.order@[i as int]@);
            }
            if same_text(self.order[i].as_str(), path) {
                proof {
                    lemma_index_in_is(order, path@, i as int);
                }
                self.order.remove(i);
                proof {
                    assert(strs(self.order@) =~= order.remove(i as int));
                }
                return;
            }
            i += 1;
        }
        proof {
            lemma_index_in_is(order, path@, i as int);
        }
    }

    /// Make `path` the path used last.
    fn touch(&mut self, path: &str)
        ensures
            final(self)@ == touched(old(self)@, path@),
    {
        self.forget_order(path);
        let ghost rest = self@.order;
        let ghost before = self@.versions;
        let ghost order = seq![path@] + rest;
        self.order.insert(0, path.to_owned());
        proof {
            assert(strs(self.order@) =~= order);
            assert(order.take(order.len() as int) =~= order);
            assert(order.skip(order.len() as int) =~= seq![]);
            assert(forgetting(before, order.skip(order.len() as int)) =~= before);
        }
        while self.order.len() > self.max_paths
            invariant
                self.max_paths == old(self).max_paths,
                self.max_versions_per_path == old(self).max_versions_per_path,
                self.order@.len() <= order.len(),
                order.len() <= self.max_paths ==> self.order@.len() == order.len(),
                order.len() > self.max_paths ==> self.order@.len() >= self.max_paths,
                strs(self.order@) == order.take(self.order@.len() as int),
                history_views(self.versions@) == forgetting(
                    before,
                    order.skip(self.order@.len() as int),
                ),
            decreases self.order.len(),
        {
            let ghost n = self.order@.len() as int;
            if let Some(evicted) = self.order.pop() {
                proof {
                    assert(order.take(n)[n - 1] == evicted@);
                    assert(strs(self.order@) =~= order.take(n - 1));
                    lemma_history_remove(self.versions@, evicted@);
                    lemma_forgetting_more(before, order, n - 1);
                }
                self.versions.remove(evicted.as_str());
            }
        }
        proof {
            let n = self.order@.len() as int;
            if order.len() <= self.max_paths {
                assert(order.take(n) =~= order);
                assert(order.skip(n) =~= seq![]);
                assert(forgetting(before, order.skip(n)) =~= before);
            } else {
                assert(self@.versions =~= touched(old(self)@, path@).versions);
            }
            assert(self@ =~= touched(old(self)@, path@));
        }
    }

    pub fn head(&self, path: &str) -> (r: Option<&Snapshot>)
        ensures
            match r {
                Some(v) => head_of(self@, path@) == Some(v@),
                None => head_of(self@, path@) is None,
            },
    {
        match self.versions.get(path) {
            Some(h) => {
                if h.len() > 0 {
                    Some(&h[0])
                } else {
                    None
                }
            },
            None => None,
        }
    }

    pub fn by_hash(&self, path: &str, hash: &str) -> (r: Option<&Snapshot>)
        ensures
            match r {
                Some(v) => found(self@, path@, Sought::Hash(hash@)) == Some(v@),
                None => found(self@, path@, Sought::Hash(hash@)) is None,
            },
    {
        self.version_by(path, Some(hash), None)
    }

    pub fn by_content(&self, path: &str, full_text: &str) -> (r: Option<&Snapshot>)
        ensures
            match r {
                Some(v) => found(self@, path@, Sought::Text(full_text@)) == Some(v@),
                None => found(self@, path@, Sought::Text(full_text@)) is None,
            },
    {
        self.version_by(path, None, Some(full_text))
    }

    fn version_by(&self, path: &str, hash: Option<&str>, text: Option<&str>) -> (r: Option<
        &Snapshot,
    >)
        requires
            hash is Some || text is Some,
        ensures
            match r {
                Some(v) => found(self@, path@, sought_by(hash, text)) == Some(v@),
                None => found(self@, path@, sought_by(hash, text)) is None,
            },
    {
        match self.versions.get(path) {
            Some(h) => {
                let n = position_of(h, hash, text);
                if n < h.len() {
                    Some(&h[n])
                } else {
                    None
                }
            },
            None => None,
        }
    }

    pub fn by_hash_mut(&mut self, path: &str, hash: &str) -> (r: Option<&mut Snapshot>)
        ensures
            match r {
                Some(v) => found(old(self)@, path@, Sought::Hash(hash@)) == Some(v@) && final(self)@
                    == with_history(
                    old(self)@,
                    path@,
                    history(old(self)@, path@).update(
                        find_in(history(old(self)@, path@), Sought::Hash(hash@)),
                        final(v)@,
                    ),
                ),
                None => found(old(self)@, path@, Sought::Hash(hash@)) is None && final(self)@
                    == old(self)@,
            },
    {
        self.version_by_mut(path, Some(hash), None)
    }

    pub fn by_content_mut(&mut self, path: &str, full_text: &str) -> (r: Option<&mut Snapshot>)
        ensures
            match r {
                Some(v) => found(old(self)@, path@, Sought::Text(full_text@)) == Some(v@) && final(
                    self)@ == with_history(
                    old(self)@,
                    path@,
                    history(old(self)@, path@).update(
                        find_in(history(old(self)@, path@), Sought::Text(full_text@)),
                        final(v)@,
                    ),
                ),
                None => found(old(self)@, path@, Sought::Text(full_text@)) is None && final(self)@
                    == old(self)@,
            },
    {
        self.version_by_mut(path, None, Some(full_text))
    }

    fn version_by_mut(&mut self, path: &str, hash: Option<&str>, text: Option<&str>) -> (r: Option<
        &mut Snapshot,
    >)
        requires
            hash is Some || text is Some,
        ensures
            match r {
                Some(v) => found(old(self)@, path@, sought_by(hash, text)) == Some(v@) && final(
                    self)@ == with_history(
                    old(self)@,
                    path@,
                    history(old(self)@, path@).update(
                        find_in(history(old(self)@, path@), sought_by(hash, text)),
                        final(v)@,
                    ),
                ),
                None => found(old(self)@, path@, sought_by(hash, text)) is None && final(self)@
                    == old(self)@,
            },
    {
        let ghost before = self.versions@;
        proof {
            assert forall|v: Vec<Snapshot>| #[trigger]
                history_views(before.insert(path@, v)) == history_views(before).insert(
                    path@,
                    snapshot_views(v@),
                ) by {
                lemma_history_insert(before, path@, v);
            }
            assert forall|h: Seq<Snapshot>, n: int, s: Snapshot| 0 <= n < h.len() implies (
            #[trigger] snapshot_views(h.update(n, s))) == snapshot_views(h).update(n, s@) by {
                assert(snapshot_views(h.update(n, s)) =~= snapshot_views(h).update(n, s@));
            }
        }
        match self.versions.get_mut(path) {
            Some(h) => {
                let n = position_of(h, hash, text);
                if n < h.len() {
                    Some(&mut h[n])
                } else {
                    proof {
                        assert(before.insert(path@, before[path@]) =~= before);
                    }
                    None
                }
            },
            None => None,
        }
    }

    /// Every snapshot with a tag, under whatever path.
    pub fn find_by_hash(&self, hash: &str) -> (out: Vec<Snapshot>)
        ensures
            exists|paths: Seq<Seq<char>>|
                #![trigger lists_paths(paths, self@)]
                lists_paths(paths, self@) && snapshot_views(out@) == found_under(
                    self@,
                    paths,
                    hash@,
                ),
    {
        let keys = self.versions.keys();
        let ghost paths = strs(keys@);
        proof {
            assert forall|k: Seq<char>| #[trigger]
                paths.contains(k) <==> self@.versions.contains_key(k) by {
                assert(self.versions@.contains_key(k) == self@.versions.contains_key(k));
            }
            assert(lists_paths(paths, self@));
        }
        let mut out: Vec<Snapshot> = Vec::new();
        let mut i: usize = 0;
        proof {
            assert(paths.take(0) =~= seq![]);
            assert(snapshot_views(out@) =~= seq![]);
        }
        while i < keys.len()
            invariant
                i <= keys.len(),
                paths == strs(keys@),
                snapshot_views(out@) == found_under(self@, paths.take(i as int), hash@),
            decreases keys.len() - i,
        {
            proof {
                assert(paths.take(i + 1).drop_last() =~= paths.take(i as int));
                assert(paths.take(i + 1).last() == keys@[i as int]@);
            }
            match self.versions.get(keys[i].as_str()) {
                Some(h) => push_with_hash(&mut out, h, hash),
                None => {
                    proof {
                        assert(snapshot_views(out@) + Seq::<SnapshotView>::empty()
                            =~= snapshot_views(out@));
                    }
                },
            }
            i += 1;
        }
        proof {
            assert(paths.take(i as int) =~= paths);
        }
        out
    }

    /// Make a text the most recent snapshot of a path; gives its tag.
    pub fn record(&mut self, path: &str, full_text: &str, seen_lines: Option<&[usize]>) -> (hash:
        String)
        ensures
            hash@ == file_tag(full_text@),
            final(self)@ == recorded(old(self)@, path@, full_text@, opt_lines(seen_lines)),
    {
        let hash = compute_file_hash(full_text);
        self.touch(path);
        let ghost now = self@;
        proof {
            lemma_history_remove(self.versions@, path@);
        }
        let mut h: Vec<Snapshot> = match self.versions.remove(path) {
            Some(h) => h,
            None => Vec::new(),
        };
        let ghost had = snapshot_views(h@);
        proof {
            assert(had =~= history(now, path@));
        }
        let n = position_of(&h, Some(hash.as_str()), Some(full_text));
        if n < h.len() {
            let mut version = h.remove(n);
            merge_seen_lines(&mut version, seen_lines);
            h.insert(0, version);
            proof {
                assert(snapshot_views(h@) =~= seq![version@] + had.remove(n as int));
            }
        } else {
            let mut version = Snapshot {
                path: path.to_owned(),
                text: full_text.to_owned(),
                hash: hash.clone(),
                seen_lines: None,
            };
            merge_seen_lines(&mut version, seen_lines);
            h.insert(0, version);
            let ghost all = seq![version@] + had;
            proof {
                assert(snapshot_views(h@) =~= all);
            }
            h.truncate(self.max_versions_per_path);
            proof {
                assert(snapshot_views(h@) =~= truncated(all, now.max_versions));
            }
        }
        proof {
            lemma_history_insert(self.versions@, path@, h);
            assert(now.versions.remove(path@).insert(path@, snapshot_views(h@))
                =~= now.versions.insert(path@, snapshot_views(h@)));
        }
        self.versions.insert(path, h);
        hash
    }

    /// Note more lines of the snapshot with a tag as seen.
    pub fn record_seen_lines(&mut self, path: &str, hash: &str, lines: &[usize])
        ensures
            final(self)@ == seen_recorded(old(self)@, path@, hash@, lines@),
    {
        if let Some(version) = self.by_hash_mut(path, hash) {
            merge_seen_lines(version, Some(lines));
        }
    }

    /// Forget a path.
    pub fn invalidate(&mut self, path: &str)
        ensures
            final(self)@ == invalidated(old(self)@, path@),
    {
        proof {
            lemma_history_remove(self.versions@, path@);
        }
        self.versions.remove(path);
        self.forget_order(path);
    }

    /// Move the snapshots of one path to another.
    pub fn relocate(&mut self, from: &str, to: &str)
        ensures
            final(self)@ == relocated(old(self)@, from@, to@),
    {
        proof {
            lemma_history_remove(self.versions@, from@);
        }
        let source = match self.versions.remove(from) {
            Some(source) => source,
            None => {
                proof {
                    assert(self@.versions =~= old(self)@.versions);
                }
                return;
            },
        };
        self.forget_order(from);
        let ghost rest = self@;
        let mut moved = moved_to(source, to);
        proof {
            lemma_history_remove(self.versions@, to@);
        }
        if let Some(dest) = self.versions.remove(to) {
            let mut dest = dest;
            let ghost a = snapshot_views(moved@);
            let ghost b = snapshot_views(dest@);
            moved.append(&mut dest);
            proof {
                assert(snapshot_views(moved@) =~= a + b);
            }
            moved = keep_distinct(moved);
            let ghost distinct = snapshot_views(moved@);
            moved.truncate(self.max_versions_per_path);
            proof {
                assert(snapshot_views(moved@) =~= truncated(distinct, rest.max_versions));
            }
        }
        proof {
            lemma_history_insert(self.versions@, to@, moved);
            assert(rest.versions.remove(to@).insert(to@, snapshot_views(moved@))
                =~= rest.versions.insert(to@, snapshot_views(moved@)));
        }
        self.versions.insert(to, moved);
        self.touch(to);
    }

    pub fn clear(&mut self)
        ensures
            final(self)@ == empty_store(old(self)@.max_paths, old(self)@.max_versions),
    {
        self.versions = StringMap::new();
        self.order = Vec::new();
        proof {
            assert(self@ =~= empty_store(old(self)@.max_paths, old(self)@.max_versions));
        }
    }
}

fn push_with_hash(out: &mut Vec<Snapshot>, h: &Vec<Snapshot>, hash: &str)
    ensures
        snapshot_views(final(out)@) == snapshot_views(old(out)@) + with_hash(
            snapshot_views(h@),
            hash@,
        ),
{
    let ghost all = snapshot_views(h@);
    let mut i: usize = 0;
    proof {
        assert(all.take(0) =~= seq![]);
        assert(snapshot_views(out@) + Seq::<SnapshotView>::empty() =~= snapshot_views(out@));
    }
    while i < h.len()
        invariant
            i <= h.len(),
            all == snapshot_views(h@),
            snapshot_views(out@) == snapshot_views(old(out)@) + with_hash(
                all.take(i as int),
                hash@,
            ),
        decreases h.len() - i,
    {
        let version = &h[i];
        proof {
            assert(all.take(i + 1).drop_last() =~= all.take(i as int));
            assert(all.take(i + 1).last() == version@);
        }
        if same_text(version.hash.as_str(), hash) {
            let ghost had = snapshot_views(out@);
            let copy = version.clone();
            out.push(copy);
            proof {
                assert(snapshot_views(out@) =~= had.push(version@));
                assert(snapshot_views(old(out)@) + with_hash(all.take(i as int), hash@).push(
                    version@,
                ) =~= had.push(version@));
            }
        }
        i += 1;
    }
    proof {
        assert(all.take(i as int) =~= all);
    }
}

fn moved_to(source: Vec<Snapshot>, to: &str) -> (out: Vec<Snapshot>)
    ensures
        snapshot_views(out@) == at_path(snapshot_views(source@), to@),
{
    let mut out: Vec<Snapshot> = Vec::new();
    let mut i: usize = 0;
    while i < source.len()
        invariant
            i <= source.len(),
            out@.len() == i,
            forall|k: int|
                0 <= k < i ==> (#[trigger] out@[k])@ == (SnapshotView {
                    path: to@,
                    ..source@[k]@
                }),
        decreases source.len() - i,
    {
        let mut version = source[i].clone();
        version.path = to.to_owned();
        out.push(version);
        i += 1;
    }
    proof {
        assert(snapshot_views(out@) =~= at_path(snapshot_views(source@), to@));
    }
    out
}

fn keep_distinct(all: Vec<Snapshot>) -> (out: Vec<Snapshot>)
    ensures
        snapshot_views(out@) == distinct_hashes(snapshot_views(all@)),
{
    let ghost views = snapshot_views(all@);
    let mut out: Vec<Snapshot> = Vec::new();
    let mut i: usize = 0;
    proof {
        assert(views.take(0) =~= seq![]);
        assert(snapshot_views(out@) =~= seq![]);
    }
    while i < all.len()
        invariant
            i <= all.len(),
            views == snapshot_views(all@),
            snapshot_views(out@) == distinct_hashes(views.take(i as int)),
        decreases all.len() - i,
    {
        let version = &all[i];
        proof {
            assert(views.take(i + 1).drop_last() =~= views.take(i as int));
            assert(views.take(i + 1).last() == version@);
        }
        let at = position_of(&out, Some(version.hash.as_str()), None);
        if at >= out.len() {
            let ghost had = snapshot_views(out@);
            let copy = version.clone();
            out.push(copy);
            proof {
                assert(snapshot_views(out@) =~= had.push(version@));
            }
        }
        i += 1;
    }
    proof {
        assert(views.take(i as int) =~= views);
    }
    out
}

// ---------------------------------------------------------------------------------------------
// Laws

/// A snapshot as the store makes it for a path.
pub open spec fn is_snapshot_of(v: SnapshotView, path: Seq<char>) -> bool {
    v.path == path && v.hash == file_tag(v.text)
}

/// No text occurs twice.
pub open spec fn distinct_texts(h: Seq<SnapshotView>) -> bool {
    forall|i: int, j: int|
        0 <= i < j < h.len() ==> (#[trigger] h[i]).text != (#[trigger] h[j]).text
}

/// What every operation keeps: the paths in use are those that have snapshots, each once and no
/// more than the limit; a path has no more snapshots than its limit, no two of the same text, and
/// each carries the path and the tag of its text.
pub open spec fn is_valid(store: StoreView) -> bool {
    &&& store.order.len() <= store.max_paths
    &&& store.order.no_duplicates()
    &&& forall|k: Seq<char>|
        #[trigger] store.versions.contains_key(k) <==> store.order.contains(k)
    &&& forall|k: Seq<char>|
        #[trigger] store.versions.contains_key(k) ==> {
            let h = store.versions[k];
            &&& h.len() <= store.max_versions
            &&& distinct_texts(h)
            &&& forall|i: int| 0 <= i < h.len() ==> is_snapshot_of(#[trigger] h[i], k)
        }
}

pub open spec fn history_is_valid(h: Seq<SnapshotView>, path: Seq<char>, max: nat) -> bool {
    &&& h.len() <= max
    &&& distinct_texts(h)
    &&& forall|i: int| 0 <= i < h.len() ==> is_snapshot_of(#[trigger] h[i], path)
}

/// A new store is valid.
pub proof fn law_empty_store_is_valid(max_paths: nat, max_versions: nat)
    ensures
        is_valid(empty_store(max_paths, max_versions)),
{
}

proof fn lemma_without_first(s: Seq<Seq<char>>, x: Seq<char>)
    requires
        s.no_duplicates(),
    ensures
        without_first(s, x).no_duplicates(),
        forall|k: Seq<char>| #[trigger]
            without_first(s, x).contains(k) <==> s.contains(k) && k != x,
        without_first(s, x).len() == s.len() - if s.contains(x) {
            1int
        } else {
            0
        },
{
    lemma_index_in(s, x);
    let i = index_in(s, x);
    let t = without_first(s, x);
    if i < s.len() {
        assert forall|a: int, b: int|
            0 <= a < t.len() && 0 <= b < t.len() && a != b implies t[a] != t[b] by {
            let a1 = if a < i {
                a
            } else {
                a + 1
            };
            let b1 = if b < i {
                b
            } else {
                b + 1
            };
            assert(t[a] == s[a1]);
            assert(t[b] == s[b1]);
        }
        assert(s.contains(x));
    } else if s.contains(x) {
        let k = choose|k: int| 0 <= k < s.len() && s[k] == x;
        assert(s[k] != x);
    }
    assert forall|k: Seq<char>| #[trigger] t.contains(k) <==> s.contains(k) && k != x by {
        if t.contains(k) {
            let a = choose|a: int| 0 <= a < t.len() && t[a] == k;
            if i < s.len() {
                let a1 = if a < i {
                    a
                } else {
                    a + 1
                };
                assert(s[a1] == k);
                if k == x {
                    assert(s[i] == s[a1]);
                }
            }
        }
        if s.contains(k) && k != x {
            let a = choose|a: int| 0 <= a < s.len() && s[a] == k;
            if i < s.len() {
                if a < i {
                    assert(t[a] == k);
                } else {
                    assert(t[a - 1] == k);
                }
            }
        }
    }
}

/// The order after a path was touched.
proof fn lemma_touched_order(store: StoreView, path: Seq<char>)
    requires
        store.order.no_duplicates(),
        store.max_paths >= 1,
    ensures
        ({
            let now = touched(store, path);
            &&& now.order.no_duplicates()
            &&& now.order.len() <= store.max_paths
            &&& now.order.contains(path)
            &&& now.max_paths == store.max_paths
            &&& now.max_versions == store.max_versions
            &&& forall|k: Seq<char>| #[trigger]
                now.order.contains(k) ==> store.order.contains(k) || k == path
            &&& forall|k: Seq<char>| #[trigger]
                now.versions.contains_key(k) ==> store.versions.contains_key(k)
                    && now.versions[k] == store.versions[k]
            &&& forall|k: Seq<char>|
                (store.order.contains(k) || k == path) ==> (#[trigger] now.order.contains(k) || !(
                now.versions.contains_key(k)))
            &&& forall|k: Seq<char>|
                store.versions.contains_key(k) && now.order.contains(k)
                    ==> #[trigger] now.versions.contains_key(k)
        }),
{
    lemma_without_first(store.order, path);
    let order = seq![path] + without_first(store.order, path);
    let now = touched(store, path);
    let m = store.max_paths as int;
    assert(order[0] == path);
    assert forall|a: int, b: int|
        0 <= a < order.len() && 0 <= b < order.len() && a != b implies order[a] != order[b] by {
        let rest = without_first(store.order, path);
        if a > 0 {
            assert(order[a] == rest[a - 1]);
            assert(rest.contains(rest[a - 1]));
        }
        if b > 0 {
            assert(order[b] == rest[b - 1]);
            assert(rest.contains(rest[b - 1]));
        }
    }
    assert forall|k: Seq<char>| order.contains(k) <==> (store.order.contains(k) || k == path) by {
        let rest = without_first(store.order, path);
        if order.contains(k) {
            let a = choose|a: int| 0 <= a < order.len() && order[a] == k;
            if a > 0 {
                assert(rest[a - 1] == k);
                assert(rest.contains(k));
            }
        }
        if k == path {
            assert(order[0] == k);
        } else if store.order.contains(k) {
            assert(rest.contains(k));
            let a = choose|a: int| 0 <= a < rest.len() && rest[a] == k;
            assert(order[a + 1] == k);
        }
    }
    if order.len() > store.max_paths {
        let kept = order.take(m);
        let gone = order.skip(m);
        assert(kept[0] == path);
        assert forall|k: Seq<char>| order.contains(k) <==> (kept.contains(k) || gone.contains(k)) by {
            if order.contains(k) {
                let a = choose|a: int| 0 <= a < order.len() && order[a] == k;
                if a < m {
                    assert(kept[a] == k);
                } else {
                    assert(gone[a - m] == k);
                }
            }
            if kept.contains(k) {
                let a = choose|a: int| 0 <= a < kept.len() && kept[a] == k;
                assert(order[a] == k);
            }
            if gone.contains(k) {
                let a = choose|a: int| 0 <= a < gone.len() && gone[a] == k;
                assert(order[a + m] == k);
            }
        }
        assert forall|k: Seq<char>| kept.contains(k) implies !gone.contains(k) by {
            if gone.contains(k) {
                let a = choose|a: int| 0 <= a < kept.len() && kept[a] == k;
                let b = choose|b: int| 0 <= b < gone.len() && gone[b] == k;
                assert(order[a] == order[b + m]);
            }
        }
    }
}

/// Touching a path and giving it a valid history keeps a store valid.
proof fn lemma_touch_and_set(store: StoreView, path: Seq<char>, h: Seq<SnapshotView>)
    requires
        is_valid(store),
        store.max_paths >= 1,
        history_is_valid(h, path, store.max_versions),
    ensures
        is_valid(with_history(touched(store, path), path, h)),
{
    lemma_touched_order(store, path);
    let now = touched(store, path);
    let done = with_history(now, path, h);
    assert forall|k: Seq<char>| #[trigger]
        done.versions.contains_key(k) <==> done.order.contains(k) by {
        if k != path {
            assert(done.versions.contains_key(k) == now.versions.contains_key(k));
            if now.versions.contains_key(k) {
                assert(store.versions.contains_key(k));
                assert(store.order.contains(k));
                assert(now.order.contains(k) || !now.versions.contains_key(k));
            }
            if now.order.contains(k) {
                assert(store.order.contains(k));
                assert(store.versions.contains_key(k));
            }
        }
    }
    assert forall|k: Seq<char>| #[trigger] done.versions.contains_key(k) implies history_is_valid(
        done.versions[k],
        k,
        store.max_versions,
    ) by {
        if k != path {
            assert(now.versions.contains_key(k));
            assert(store.versions.contains_key(k));
        }
    }
}

/// Recording a text keeps a store valid, provided that it may hold a path at all. (A store that may
/// hold none keeps the snapshot of the path recorded last without listing the path.)
pub proof fn law_record_keeps_valid(
    store: StoreView,
    path: Seq<char>,
    text: Seq<char>,
    seen: Option<Seq<usize>>,
)
    requires
        is_valid(store),
        store.max_paths >= 1,
    ensures
        is_valid(recorded(store, path, text, seen)),
{
    let tag = file_tag(text);
    let now = touched(store, path);
    lemma_touched_order(store, path);
    let h = history(now, path);
    if now.versions.contains_key(path) {
        assert(store.versions.contains_key(path));
    }
    assert(history_is_valid(h, path, store.max_versions));
    let sought = Sought::Both { hash: tag, text };
    let at = find_in(h, sought);
    lemma_find_in(h, sought);
    let done = history(recorded(store, path, text, seen), path);
    if at < h.len() {
        let rest = h.remove(at);
        assert(done == seq![seen_more(h[at], seen)] + rest);
        assert forall|i: int| 0 <= i < done.len() implies
            is_snapshot_of(#[trigger] done[i], path) by {
            if i > 0 {
                let k = if i - 1 < at {
                    i - 1
                } else {
                    i
                };
                assert(done[i] == h[k]);
            } else {
                assert(is_snapshot_of(h[at], path));
            }
        }
        assert forall|i: int, j: int| 0 <= i < j < done.len() implies (#[trigger] done[i]).text != (
        #[trigger] done[j]).text by {
            let b = if j - 1 < at {
                j - 1
            } else {
                j
            };
            assert(done[j] == h[b]);
            if i == 0 {
                if at < b {
                    assert(h[at].text != h[b].text);
                } else {
                    assert(h[b].text != h[at].text);
                }
            } else {
                let a = if i - 1 < at {
                    i - 1
                } else {
                    i
                };
                assert(done[i] == h[a]);
                assert(h[a].text != h[b].text);
            }
        }
    } else {
        let fresh = seen_more(SnapshotView { path, text, hash: tag, seen_lines: None }, seen);
        let all = seq![fresh] + h;
        assert forall|i: int| 0 <= i < done.len() implies
            is_snapshot_of(#[trigger] done[i], path) by {
            assert(done[i] == all[i]);
            if i > 0 {
                assert(all[i] == h[i - 1]);
            }
        }
        assert forall|i: int, j: int| 0 <= i < j < done.len() implies (#[trigger] done[i]).text != (
        #[trigger] done[j]).text by {
            assert(done[j] == h[j - 1]);
            if i == 0 {
                assert(done[0] == fresh);
                assert(!is_sought(h[j - 1], sought));
                assert(is_snapshot_of(h[j - 1], path));
            } else {
                assert(done[i] == h[i - 1]);
                assert(h[i - 1].text != h[j - 1].text);
            }
        }
    }
    lemma_touch_and_set(store, path, done);
}

/// Forgetting a path keeps a store valid, and of that path nothing is found any more.
pub proof fn law_invalidate_keeps_valid(store: StoreView, path: Seq<char>)
    requires
        is_valid(store),
    ensures
        is_valid(invalidated(store, path)),
        history(invalidated(store, path), path) == Seq::<SnapshotView>::empty(),
{
    lemma_without_first(store.order, path);
    let done = invalidated(store, path);
    assert forall|k: Seq<char>| #[trigger]
        done.versions.contains_key(k) <==> done.order.contains(k) by {
        assert(done.order.contains(k) <==> store.order.contains(k) && k != path);
        assert(store.versions.contains_key(k) <==> store.order.contains(k));
    }
    assert forall|k: Seq<char>| #[trigger] done.versions.contains_key(k) implies history_is_valid(
        done.versions[k],
        k,
        store.max_versions,
    ) by {
        assert(store.versions.contains_key(k));
    }
}

proof fn lemma_distinct_hashes(h: Seq<SnapshotView>, path: Seq<char>)
    requires
        forall|i: int| 0 <= i < h.len() ==> is_snapshot_of(#[trigger] h[i], path),
    ensures
        forall|i: int|
            0 <= i < distinct_hashes(h).len() ==> is_snapshot_of(
                #[trigger] distinct_hashes(h)[i],
                path,
            ),
        distinct_texts(distinct_hashes(h)),
    decreases h.len(),
{
    if h.len() > 0 {
        let less = h.drop_last();
        assert forall|i: int| 0 <= i < less.len() implies
            is_snapshot_of(#[trigger] less[i], path) by {
            assert(less[i] == h[i]);
        }
        lemma_distinct_hashes(less, path);
        let front = distinct_hashes(less);
        let last = h.last();
        assert(is_snapshot_of(h[h.len() - 1], path));
        lemma_find_in(front, Sought::Hash(last.hash));
        let done = distinct_hashes(h);
        if find_in(front, Sought::Hash(last.hash)) >= front.len() {
            assert forall|i: int, j: int| 0 <= i < j < done.len() implies (#[trigger] done[i]).text
                != (#[trigger] done[j]).text by {
                assert(done[i] == front[i]);
                if j == front.len() {
                    assert(!is_sought(front[i], Sought::Hash(last.hash)));
                    assert(is_snapshot_of(front[i], path));
                } else {
                    assert(done[j] == front[j]);
                }
            }
        }
    }
}

/// Moving the snapshots of a path keeps a store valid, under the same condition as recording.
pub proof fn law_relocate_keeps_valid(store: StoreView, from: Seq<char>, to: Seq<char>)
    requires
        is_valid(store),
        store.max_paths >= 1,
    ensures
        is_valid(relocated(store, from, to)),
{
    if store.versions.contains_key(from) {
        let source = store.versions[from];
        let moved = at_path(source, to);
        let rest = invalidated(store, from);
        law_invalidate_keeps_valid(store, from);
        assert forall|i: int| 0 <= i < moved.len() implies
            is_snapshot_of(#[trigger] moved[i], to) by {
            assert(is_snapshot_of(source[i], from));
        }
        assert(distinct_texts(moved)) by {
            assert forall|i: int, j: int| 0 <= i < j < moved.len() implies (
            #[trigger] moved[i]).text != (#[trigger] moved[j]).text by {
                assert(source[i].text != source[j].text);
            }
        }
        let h = if rest.versions.contains_key(to) {
            truncated(distinct_hashes(moved + rest.versions[to]), store.max_versions)
        } else {
            moved
        };
        if rest.versions.contains_key(to) {
            let both = moved + rest.versions[to];
            assert forall|i: int| 0 <= i < both.len() implies is_snapshot_of(
                #[trigger] both[i],
                to,
            ) by {
                if i < moved.len() {
                    assert(both[i] == moved[i]);
                } else {
                    assert(both[i] == rest.versions[to][i - moved.len()]);
                }
            }
            lemma_distinct_hashes(both, to);
        }
        assert(history_is_valid(h, to, store.max_versions));
        lemma_touch_after_set(rest, to, h);
        lemma_touch_and_set(rest, to, h);
    }
}

/// It does not matter whether a path gets its history before or after it is touched.
proof fn lemma_touch_after_set(store: StoreView, path: Seq<char>, h: Seq<SnapshotView>)
    requires
        is_valid(store),
        store.max_paths >= 1,
    ensures
        touched(with_history(store, path, h), path) == with_history(touched(store, path), path, h),
{
    lemma_touched_order(store, path);
    let a = touched(with_history(store, path, h), path);
    let b = with_history(touched(store, path), path, h);
    let order = seq![path] + without_first(store.order, path);
    if order.len() > store.max_paths {
        let gone = order.skip(store.max_paths as int);
        lemma_without_first(store.order, path);
        let rest = without_first(store.order, path);
        assert(!gone.contains(path)) by {
            if gone.contains(path) {
                let i = choose|i: int| 0 <= i < gone.len() && gone[i] == path;
                assert(rest[i + store.max_paths - 1] == path);
                assert(rest.contains(path));
            }
        }
    }
    assert(a.versions =~= b.versions);
    assert(a =~= b);
}

/// A recorded text is the most recent snapshot of its path, and is found by its tag and by its
/// content.
pub proof fn law_recorded_text_is_found(
    store: StoreView,
    path: Seq<char>,
    text: Seq<char>,
    seen: Option<Seq<usize>>,
)
    requires
        store.max_versions >= 1,
    ensures
        ({
            let done = recorded(store, path, text, seen);
            &&& head_of(done, path) matches Some(v) && v.text == text && v.hash == file_tag(text)
            &&& found(done, path, Sought::Hash(file_tag(text))) == head_of(done, path)
            &&& found(done, path, Sought::Text(text)) == head_of(done, path)
        }),
{
    let now = touched(store, path);
    let h = history(now, path);
    lemma_find_in(h, Sought::Both { hash: file_tag(text), text });
}

/// Texts whose tags collide are kept apart: after `b` was recorded over `a`, both are found by
/// their content, and the tag leads to the one recorded last.
pub proof fn law_colliding_texts_stay_apart(
    store: StoreView,
    path: Seq<char>,
    a: Seq<char>,
    b: Seq<char>,
    seen_a: Option<Seq<usize>>,
    seen_b: Option<Seq<usize>>,
)
    requires
        store.max_versions >= 2,
        store.max_paths >= 1,
        is_valid(store),
        a != b,
    ensures
        ({
            let first = recorded(store, path, a, seen_a);
            let done = recorded(first, path, b, seen_b);
            &&& found(done, path, Sought::Text(a)) == head_of(first, path)
            &&& found(done, path, Sought::Text(b)) == head_of(done, path)
            &&& file_tag(a) == file_tag(b) ==> found(done, path, Sought::Hash(file_tag(a)))
                == head_of(done, path)
        }),
{
    let first = recorded(store, path, a, seen_a);
    let done = recorded(first, path, b, seen_b);
    law_recorded_text_is_found(store, path, a, seen_a);
    law_recorded_text_is_found(first, path, b, seen_b);
    law_record_keeps_valid(store, path, a, seen_a);
    let now = touched(first, path);
    lemma_touched_order(first, path);
    assert(first.versions.contains_key(path));
    assert(now.versions.contains_key(path));
    let h = first.versions[path];
    assert(h == history(now, path));
    let sought = Sought::Both { hash: file_tag(b), text: b };
    lemma_find_in(h, sought);
    let at = find_in(h, sought);
    let end = history(done, path);
    assert(h[0].text == a);
    if at < h.len() {
        assert(at > 0);
        assert(end[1] == h[0]);
    } else {
        assert(end[1] == h[0]);
    }
    lemma_find_in_is(end, Sought::Text(a), 1);
}

/// Seeing more lines of a snapshot keeps a store valid.
pub proof fn law_seen_lines_keep_valid(
    store: StoreView,
    path: Seq<char>,
    hash: Seq<char>,
    lines: Seq<usize>,
)
    requires
        is_valid(store),
    ensures
        is_valid(seen_recorded(store, path, hash, lines)),
{
    let h = history(store, path);
    let at = find_in(h, Sought::Hash(hash));
    lemma_find_in(h, Sought::Hash(hash));
    if at < h.len() {
        let done = seen_recorded(store, path, hash, lines);
        let more = done.versions[path];
        assert(store.versions.contains_key(path));
        assert(history_is_valid(more, path, store.max_versions)) by {
            assert forall|i: int| 0 <= i < more.len() implies is_snapshot_of(
                #[trigger] more[i],
                path,
            ) by {
                assert(is_snapshot_of(h[i], path));
            }
            assert forall|i: int, j: int| 0 <= i < j < more.len() implies (#[trigger] more[i]).text
                != (#[trigger] more[j]).text by {
                assert(h[i].text != h[j].text);
            }
        }
        assert forall|k: Seq<char>| #[trigger]
            done.versions.contains_key(k) <==> done.order.contains(k) by {
            assert(store.versions.contains_key(k) <==> store.order.contains(k));
        }
        assert forall|k: Seq<char>| #[trigger]
            done.versions.contains_key(k) implies history_is_valid(
            done.versions[k],
            k,
            store.max_versions,
        ) by {
            assert(store.versions.contains_key(k));
        }
    }
}

/// Recording a text again adds no snapshot: the one that is there has been seen in more lines.
pub proof fn law_same_text_is_fused(
    store: StoreView,
    path: Seq<char>,
    text: Seq<char>,
    seen: Option<Seq<usize>>,
    more: Option<Seq<usize>>,
)
    requires
        is_valid(store),
        store.max_paths >= 1,
        store.max_versions >= 1,
    ensures
        ({
            let once = history(recorded(store, path, text, seen), path);
            history(recorded(recorded(store, path, text, seen), path, text, more), path)
                == once.update(0, seen_more(once[0], more))
        }),
{
    let first = recorded(store, path, text, seen);
    law_recorded_text_is_found(store, path, text, seen);
    law_record_keeps_valid(store, path, text, seen);
    let now = touched(first, path);
    lemma_touched_order(first, path);
    assert(first.versions.contains_key(path));
    assert(now.versions.contains_key(path));
    let h = first.versions[path];
    assert(h == history(now, path));
    let sought = Sought::Both { hash: file_tag(text), text };
    lemma_find_in_is(h, sought, 0);
    assert(seq![seen_more(h[0], more)] + h.remove(0) =~= h.update(0, seen_more(h[0], more)));
}

} // verus!
