//! What a store of snapshots remembers, and what it forgets.

use crate::format::file_tag;
use crate::snapshots::{
    at_path, distinct_hashes, distinct_texts, find_in, found, found_under, head_of, history,
    index_in, invalidated, is_snapshot_of, is_sought, is_valid, lemma_find_in, lemma_index_in,
    recorded, relocated, seen_more, seen_recorded, touched, truncated, with_hash, with_history,
    without_first, Sought, StoreView,
};
use crate::types::SnapshotView;
use vstd::prelude::*;

verus! {

// ---------------------------------------------------------------------------------------------
// Searching

/// Whether a snapshot has the tag that is asked for, the text, or both.
pub open spec fn fits(v: SnapshotView, sought: Sought) -> bool {
    match sought {
        Sought::Hash(hash) => v.hash == hash,
        Sought::Text(text) => v.text == text,
        Sought::Both { hash, text } => v.hash == hash && v.text == text,
    }
}

/// The snapshot that is found is the most recent of the path that is sought; none is found only
/// where there is none.
pub proof fn law_most_recent_is_found(store: StoreView, path: Seq<char>, sought: Sought)
    ensures
        ({
            let h = history(store, path);
            match found(store, path, sought) {
                Some(v) => fits(v, sought) && exists|i: int|
                    0 <= i < h.len() && #[trigger] h[i] == v && forall|j: int|
                        0 <= j < i ==> !fits(#[trigger] h[j], sought),
                None => forall|i: int| 0 <= i < h.len() ==> !fits(#[trigger] h[i], sought),
            }
        }),
        store.versions.contains_key(path) ==> history(store, path) == store.versions[path],
        !store.versions.contains_key(path) ==> history(store, path).len() == 0,
{
    let h = history(store, path);
    lemma_find_in(h, sought);
    let i = find_in(h, sought);
    assert forall|j: int| 0 <= j < i && j < h.len() implies !fits(#[trigger] h[j], sought) by {
        assert(!is_sought(h[j], sought));
    }
    if i < h.len() {
        assert(h[i] == found(store, path, sought)->0);
    }
}

/// The head of a path is its most recent snapshot.
pub proof fn law_head_is_most_recent(store: StoreView, path: Seq<char>)
    ensures
        head_of(store, path) == if history(store, path).len() > 0 {
            Some(history(store, path)[0])
        } else {
            None
        },
{
}

proof fn lemma_with_hash(h: Seq<SnapshotView>, hash: Seq<char>)
    ensures
        with_hash(h, hash) == h.filter(|v: SnapshotView| v.hash == hash),
    decreases h.len(),
{
    reveal(Seq::filter);
    if h.len() > 0 {
        lemma_with_hash(h.drop_last(), hash);
    }
}

/// Across paths a tag leads to all snapshots that carry it, path by path, those of a path from the
/// most recent on.
pub proof fn law_tag_leads_to_all_snapshots(
    store: StoreView,
    paths: Seq<Seq<char>>,
    path: Seq<char>,
    hash: Seq<char>,
)
    ensures
        found_under(store, seq![], hash) == Seq::<SnapshotView>::empty(),
        found_under(store, paths.push(path), hash) == found_under(store, paths, hash)
            + (if store.versions.contains_key(path) {
            store.versions[path].filter(|v: SnapshotView| v.hash == hash)
        } else {
            seq![]
        }),
{
    reveal(Seq::filter);
    assert(paths.push(path).drop_last() =~= paths);
    lemma_with_hash(history(store, path), hash);
}

// ---------------------------------------------------------------------------------------------
// Recording

proof fn lemma_filter_keeps<A>(s: Seq<A>, p: spec_fn(A) -> bool)
    requires
        forall|i: int| 0 <= i < s.len() ==> p(#[trigger] s[i]),
    ensures
        s.filter(p) == s,
    decreases s.len(),
{
    reveal(Seq::filter);
    if s.len() > 0 {
        assert forall|i: int| 0 <= i < s.drop_last().len() implies p(
            #[trigger] s.drop_last()[i],
        ) by {
            assert(s.drop_last()[i] == s[i]);
        }
        lemma_filter_keeps(s.drop_last(), p);
        assert(p(s[s.len() - 1]));
        assert(s.drop_last().push(s.last()) =~= s);
    } else {
        assert(s.filter(p) =~= s);
    }
}

proof fn lemma_filter_one<A>(x: A, p: spec_fn(A) -> bool)
    ensures
        seq![x].filter(p) == if p(x) {
            seq![x]
        } else {
            seq![]
        },
{
    reveal(Seq::filter);
    reveal_with_fuel(Seq::filter, 2);
    assert(seq![x].drop_last() =~= seq![]);
    assert(Seq::<A>::empty().push(x) =~= seq![x]);
}

proof fn lemma_filter_removes<A>(s: Seq<A>, i: int, p: spec_fn(A) -> bool)
    requires
        0 <= i < s.len(),
        !p(s[i]),
        forall|j: int| 0 <= j < s.len() && j != i ==> p(#[trigger] s[j]),
    ensures
        s.filter(p) == s.remove(i),
{
    let a = s.take(i);
    let b = s.skip(i + 1);
    assert(s =~= a + seq![s[i]] + b);
    Seq::filter_distributes_over_add(a + seq![s[i]], b, p);
    Seq::filter_distributes_over_add(a, seq![s[i]], p);
    assert forall|j: int| 0 <= j < a.len() implies p(#[trigger] a[j]) by {
        assert(a[j] == s[j]);
    }
    assert forall|j: int| 0 <= j < b.len() implies p(#[trigger] b[j]) by {
        assert(b[j] == s[i + 1 + j]);
    }
    lemma_filter_keeps(a, p);
    lemma_filter_keeps(b, p);
    lemma_filter_one(s[i], p);
    assert(a + seq![] + b =~= s.remove(i));
    assert(s.filter(p) =~= s.remove(i));
}

/// The paths in the order of their use, without one of them.
pub open spec fn others(order: Seq<Seq<char>>, path: Seq<char>) -> Seq<Seq<char>> {
    order.filter(is_other(path))
}

pub open spec fn is_other(path: Seq<char>) -> spec_fn(Seq<char>) -> bool {
    |k: Seq<char>| k != path
}

proof fn lemma_others(order: Seq<Seq<char>>, path: Seq<char>)
    requires
        order.no_duplicates(),
    ensures
        without_first(order, path) == others(order, path),
{
    lemma_index_in(order, path);
    let i = index_in(order, path);
    let p = is_other(path);
    if i < order.len() {
        assert forall|j: int| 0 <= j < order.len() && j != i implies p(#[trigger] order[j]) by {}
        lemma_filter_removes(order, i, p);
    } else {
        assert forall|j: int| 0 <= j < order.len() implies p(#[trigger] order[j]) by {}
        lemma_filter_keeps(order, p);
    }
}

/// Of all paths but one only as many are kept as have room beside it: those that were used last.
pub open spec fn with_room(order: Seq<Seq<char>>, path: Seq<char>, room: nat) -> Seq<Seq<char>> {
    let rest = others(order, path);
    if rest.len() + 1 <= room {
        rest
    } else {
        rest.take(room - 1)
    }
}

proof fn lemma_touched(store: StoreView, path: Seq<char>)
    requires
        store.order.no_duplicates(),
        store.max_paths >= 1,
    ensures
        ({
            let now = touched(store, path);
            let kept = with_room(store.order, path, store.max_paths);
            &&& now.order == seq![path] + kept
            &&& now.max_paths == store.max_paths
            &&& now.max_versions == store.max_versions
            &&& forall|k: Seq<char>|
                k == path || kept.contains(k) ==> #[trigger] history(now, k) == history(store, k)
            &&& forall|k: Seq<char>|
                store.order.contains(k) && k != path && !kept.contains(k) ==> (
                #[trigger] history(now, k)).len() == 0
        }),
{
    lemma_others(store.order, path);
    let rest = others(store.order, path);
    let order = seq![path] + rest;
    let kept = with_room(store.order, path, store.max_paths);
    let now = touched(store, path);
    lemma_others_contains(store.order, path);
    lemma_others_distinct(store.order, path);
    if order.len() <= store.max_paths {
        assert forall|k: Seq<char>|
            store.order.contains(k) && k != path && !kept.contains(k) implies (
        #[trigger] history(now, k)).len() == 0 by {
            assert(rest.contains(k));
        }
    } else {
        let gone = order.skip(store.max_paths as int);
        assert(order.take(store.max_paths as int) =~= seq![path] + kept);
        assert forall|k: Seq<char>| k == path || kept.contains(k) implies #[trigger] history(now, k)
            == history(store, k) by {
            assert(!gone.contains(k)) by {
                if gone.contains(k) {
                    let g = choose|g: int| 0 <= g < gone.len() && gone[g] == k;
                    assert(k == rest[store.max_paths - 1 + g]);
                    assert(rest.contains(k));
                    if kept.contains(k) {
                        let m = choose|m: int| 0 <= m < kept.len() && kept[m] == k;
                        assert(rest[m] == k);
                    }
                }
            }
        }
        assert forall|k: Seq<char>|
            store.order.contains(k) && k != path && !kept.contains(k) implies (
        #[trigger] history(now, k)).len() == 0 by {
            assert(rest.contains(k));
            let m = choose|m: int| 0 <= m < rest.len() && rest[m] == k;
            if m < kept.len() {
                assert(kept[m] == k);
            }
            assert(gone[m - (store.max_paths - 1)] == k);
            assert(gone.contains(k));
        }
    }
}

proof fn lemma_others_contains(order: Seq<Seq<char>>, path: Seq<char>)
    ensures
        forall|k: Seq<char>| #[trigger]
            others(order, path).contains(k) <==> order.contains(k) && k != path,
    decreases order.len(),
{
    reveal(Seq::filter);
    if order.len() > 0 {
        let front = order.drop_last();
        lemma_others_contains(front, path);
        let all = others(order, path);
        let less = others(front, path);
        assert forall|k: Seq<char>| #[trigger] all.contains(k) <==> order.contains(k) && k
            != path by {
            assert(order.contains(k) <==> front.contains(k) || k == order.last()) by {
                if order.contains(k) {
                    let i = choose|i: int| 0 <= i < order.len() && order[i] == k;
                    if i < front.len() {
                        assert(front[i] == k);
                    }
                }
                if front.contains(k) {
                    let i = choose|i: int| 0 <= i < front.len() && front[i] == k;
                    assert(order[i] == k);
                }
                assert(order[order.len() - 1] == order.last());
            }
            assert(less.contains(k) <==> front.contains(k) && k != path);
            if all.contains(k) {
                let i = choose|i: int| 0 <= i < all.len() && all[i] == k;
                if i < less.len() {
                    assert(less[i] == k);
                }
            }
            if less.contains(k) {
                let i = choose|i: int| 0 <= i < less.len() && less[i] == k;
                assert(all[i] == k);
            }
            if order.last() != path {
                assert(all[all.len() - 1] == order.last());
            }
        }
    }
}

proof fn lemma_others_distinct(order: Seq<Seq<char>>, path: Seq<char>)
    requires
        order.no_duplicates(),
    ensures
        others(order, path).no_duplicates(),
{
    lemma_others(order, path);
    lemma_index_in(order, path);
    let i = index_in(order, path);
    let t = without_first(order, path);
    if i < order.len() {
        assert forall|a: int, b: int|
            0 <= a < t.len() && 0 <= b < t.len() && a != b implies t[a] != t[b] by {
            let a1 = if a < i {
                a
            } else {
                a + 1
            };
            let b1 = if b < i {
                b
            } else {
                b + 1
            };
            assert(t[a] == order[a1]);
            assert(t[b] == order[b1]);
        }
    }
}

/// What recording a text does, in full. The text becomes the most recent snapshot of its path,
/// under its tag; its lines that have been seen are those of before, if it was there, and the new
/// ones. Its other snapshots follow in their order, as many as have room. The path becomes the one
/// used last. The other paths keep their order and their snapshots, as many as have room; of the
/// rest, which were used longest ago, nothing is left.
pub proof fn law_recording_in_full(
    store: StoreView,
    path: Seq<char>,
    text: Seq<char>,
    seen: Option<Seq<usize>>,
)
    requires
        is_valid(store),
        store.max_paths >= 1,
        store.max_versions >= 1,
    ensures
        ({
            let done = recorded(store, path, text, seen);
            let kept = with_room(store.order, path, store.max_paths);
            let before = found(store, path, Sought::Text(text));
            let rest = history(store, path).filter(|v: SnapshotView| v.text != text);
            let head = history(done, path)[0];
            let had: Option<Set<usize>> = match before {
                Some(v) => v.seen_lines,
                None => None,
            };
            &&& done.max_paths == store.max_paths && done.max_versions == store.max_versions
            &&& done.order == seq![path] + kept
            &&& forall|k: Seq<char>|
                kept.contains(k) ==> #[trigger] history(done, k) == history(store, k)
            &&& forall|k: Seq<char>|
                k != path && !kept.contains(k) ==> (#[trigger] history(done, k)).len() == 0
            &&& head.path == path && head.text == text && head.hash == file_tag(text)
            &&& head.seen_lines == match (had, seen) {
                (_, None) => had,
                (None, Some(lines)) => Some(lines.to_set()),
                (Some(set), Some(lines)) => Some(set.union(lines.to_set())),
            }
            &&& history(done, path).skip(1) == if rest.len() < store.max_versions {
                rest
            } else {
                rest.take(store.max_versions - 1)
            }
        }),
{
    let tag = file_tag(text);
    let done = recorded(store, path, text, seen);
    let now = touched(store, path);
    let kept = with_room(store.order, path, store.max_paths);
    lemma_touched(store, path);
    lemma_others_contains(store.order, path);
    let h = history(store, path);
    assert(history(now, path) == h);
    let both = Sought::Both { hash: tag, text };
    lemma_find_in(h, both);
    lemma_find_in(h, Sought::Text(text));
    let at = find_in(h, both);
    let p = |v: SnapshotView| v.text != text;
    assert forall|i: int| 0 <= i < h.len() implies is_snapshot_of(#[trigger] h[i], path) by {
        assert(store.versions.contains_key(path));
    }
    assert(distinct_texts(h)) by {
        if h.len() > 0 {
            assert(store.versions.contains_key(path));
        }
    }
    assert(h.len() <= store.max_versions) by {
        if h.len() > 0 {
            assert(store.versions.contains_key(path));
        }
    }
    if at < h.len() {
        assert(h[at].text == text);
        assert forall|j: int| 0 <= j < h.len() && j != at implies p(#[trigger] h[j]) by {
            if j < at {
                assert(h[j].text != h[at].text);
            } else {
                assert(h[at].text != h[j].text);
            }
        }
        lemma_filter_removes(h, at, p);
        let t = find_in(h, Sought::Text(text));
        assert(is_sought(h[at], Sought::Text(text)));
        if t < at {
            assert(p(h[t]));
        }
        assert(t == at);
        assert(history(done, path).skip(1) =~= h.remove(at));
    } else {
        assert forall|j: int| 0 <= j < h.len() implies p(#[trigger] h[j]) by {
            if h[j].text == text {
                assert(is_snapshot_of(h[j], path));
                assert(is_sought(h[j], both));
            }
        }
        lemma_filter_keeps(h, p);
        let t = find_in(h, Sought::Text(text));
        if t < h.len() {
            assert(p(h[t]));
        }
        let new = seen_more(
            SnapshotView { path, text, hash: tag, seen_lines: None },
            seen,
        );
        if h.len() < store.max_versions {
            assert(history(done, path).skip(1) =~= h);
        } else {
            assert(history(done, path).skip(1) =~= h.take(store.max_versions - 1));
        }
    }
    assert forall|k: Seq<char>| kept.contains(k) implies #[trigger] history(done, k) == history(
        store,
        k,
    ) by {
        lemma_kept_are_others(store.order, path, store.max_paths, k);
        assert(history(now, k) == history(store, k));
    }
    assert forall|k: Seq<char>| k != path && !kept.contains(k) implies (#[trigger] history(
        done,
        k,
    )).len() == 0 by {
        if store.order.contains(k) {
            assert(history(now, k).len() == 0);
        } else {
            assert(!store.versions.contains_key(k));
        }
    }
}

proof fn lemma_kept_are_others(order: Seq<Seq<char>>, path: Seq<char>, room: nat, k: Seq<char>)
    requires
        room >= 1,
        with_room(order, path, room).contains(k),
    ensures
        order.contains(k) && k != path,
{
    lemma_others_contains(order, path);
    let kept = with_room(order, path, room);
    let rest = others(order, path);
    let i = choose|i: int| 0 <= i < kept.len() && kept[i] == k;
    assert(rest[i] == k);
    assert(rest.contains(k));
}

/// Forgetting a path leaves the others as they are, in their order.
pub proof fn law_forgetting_in_full(store: StoreView, path: Seq<char>)
    requires
        is_valid(store),
    ensures
        ({
            let done = invalidated(store, path);
            &&& done.order == others(store.order, path)
            &&& done.max_paths == store.max_paths && done.max_versions == store.max_versions
            &&& history(done, path).len() == 0
            &&& forall|k: Seq<char>|
                k != path ==> #[trigger] history(done, k) == history(store, k)
        }),
{
    lemma_others(store.order, path);
}

/// Seeing more lines of the snapshot with a tag adds them to those that were seen of it, and
/// changes nothing else. Where no snapshot has the tag nothing changes.
pub proof fn law_seeing_lines_in_full(
    store: StoreView,
    path: Seq<char>,
    hash: Seq<char>,
    lines: Seq<usize>,
)
    ensures
        ({
            let done = seen_recorded(store, path, hash, lines);
            let h = history(store, path);
            &&& done.order == store.order
            &&& done.max_paths == store.max_paths && done.max_versions == store.max_versions
            &&& forall|k: Seq<char>|
                k != path ==> #[trigger] history(done, k) == history(store, k)
            &&& history(done, path).len() == h.len()
            &&& forall|i: int|
                0 <= i < h.len() ==> {
                    let v = #[trigger] history(done, path)[i];
                    &&& v.path == h[i].path && v.text == h[i].text && v.hash == h[i].hash
                    &&& v.seen_lines == if h[i].hash == hash && (forall|j: int|
                        0 <= j < i ==> (#[trigger] h[j]).hash != hash) {
                        match h[i].seen_lines {
                            Some(seen) => Some(seen.union(lines.to_set())),
                            None => Some(lines.to_set()),
                        }
                    } else {
                        h[i].seen_lines
                    }
                }
        }),
{
    let h = history(store, path);
    let done = seen_recorded(store, path, hash, lines);
    let at = find_in(h, Sought::Hash(hash));
    lemma_find_in(h, Sought::Hash(hash));
    assert forall|i: int| 0 <= i < h.len() implies ({
        let v = #[trigger] history(done, path)[i];
        &&& v.path == h[i].path && v.text == h[i].text && v.hash == h[i].hash
        &&& v.seen_lines == if h[i].hash == hash && (forall|j: int|
            0 <= j < i ==> (#[trigger] h[j]).hash != hash) {
            match h[i].seen_lines {
                Some(seen) => Some(seen.union(lines.to_set())),
                None => Some(lines.to_set()),
            }
        } else {
            h[i].seen_lines
        }
    }) by {
        assert(is_sought(h[i], Sought::Hash(hash)) <==> h[i].hash == hash);
        assert forall|j: int| 0 <= j < at && j < h.len() implies (#[trigger] h[j]).hash != hash by {
            assert(!is_sought(h[j], Sought::Hash(hash)));
        }
        if i > at {
            assert(h[at].hash == hash) by {
                assert(is_sought(h[at], Sought::Hash(hash)));
            }
        }
        if i < at {
            assert(!is_sought(h[i], Sought::Hash(hash)));
        }
    }
}

// ---------------------------------------------------------------------------------------------
// Moving

/// No snapshot before it has the same tag.
pub open spec fn is_first_of_tag(h: Seq<SnapshotView>, i: int) -> bool {
    forall|j: int| 0 <= j < i ==> (#[trigger] h[j]).hash != h[i].hash
}

/// `kept` is made of the snapshots at `places`, in their order: just those that are the first with
/// their tag.
pub open spec fn are_first_of_tags(
    h: Seq<SnapshotView>,
    places: Seq<int>,
    kept: Seq<SnapshotView>,
) -> bool {
    &&& places.len() == kept.len()
    &&& forall|k: int|
        0 <= k < places.len() ==> 0 <= #[trigger] places[k] < h.len() && kept[k] == h[places[k]]
    &&& forall|j: int, k: int|
        0 <= j < k < places.len() ==> #[trigger] places[j] < #[trigger] places[k]
    &&& forall|i: int|
        0 <= i < h.len() ==> (#[trigger] is_first_of_tag(h, i) <==> places.contains(i))
}

spec fn first_places(h: Seq<SnapshotView>) -> Seq<int>
    decreases h.len(),
{
    if h.len() == 0 {
        seq![]
    } else {
        let front = first_places(h.drop_last());
        if is_first_of_tag(h, h.len() - 1) {
            front.push(h.len() - 1)
        } else {
            front
        }
    }
}

proof fn lemma_first_of_tags(h: Seq<SnapshotView>)
    ensures
        are_first_of_tags(h, first_places(h), distinct_hashes(h)),
    decreases h.len(),
{
    if h.len() > 0 {
        let front = h.drop_last();
        let last = h.len() - 1;
        lemma_first_of_tags(front);
        let kept = distinct_hashes(front);
        let places = first_places(front);
        let all = first_places(h);
        lemma_find_in(kept, Sought::Hash(h.last().hash));
        let at = find_in(kept, Sought::Hash(h.last().hash));
        assert forall|i: int| 0 <= i < last implies is_first_of_tag(h, i) == #[trigger] is_first_of_tag(
            front,
            i,
        ) by {
            if is_first_of_tag(h, i) {
                assert forall|j: int| 0 <= j < i implies (#[trigger] front[j]).hash
                    != front[i].hash by {
                    assert(h[j].hash != h[i].hash);
                }
            }
            if is_first_of_tag(front, i) {
                assert forall|j: int| 0 <= j < i implies (#[trigger] h[j]).hash != h[i].hash by {
                    assert(front[j].hash != front[i].hash);
                }
            }
        }
        if at < kept.len() {
            assert(is_sought(kept[at], Sought::Hash(h.last().hash)));
            let j = places[at];
            assert(kept[at] == front[j]);
            assert(h[j].hash == h[last].hash);
            assert(!is_first_of_tag(h, last));
        } else {
            assert(is_first_of_tag(h, last)) by {
                if !is_first_of_tag(h, last) {
                    let j = choose|j: int| 0 <= j < last && (#[trigger] h[j]).hash == h[last].hash;
                    lemma_has_first(front, j);
                    let f = choose|f: int|
                        0 <= f <= j && #[trigger] is_first_of_tag(front, f) && front[f].hash
                            == front[j].hash;
                    assert(places.contains(f));
                    let k = choose|k: int| 0 <= k < places.len() && places[k] == f;
                    assert(kept[k] == front[f]);
                    assert(!is_sought(kept[k], Sought::Hash(h.last().hash)));
                }
            }
        }
        assert forall|i: int| 0 <= i < h.len() implies (#[trigger] is_first_of_tag(h, i)
            <==> all.contains(i)) by {
            if i < last {
                assert(is_first_of_tag(front, i) <==> places.contains(i));
                if places.contains(i) {
                    let k = choose|k: int| 0 <= k < places.len() && places[k] == i;
                    assert(all[k] == i);
                }
                if all.contains(i) {
                    let k = choose|k: int| 0 <= k < all.len() && all[k] == i;
                    if k < places.len() {
                        assert(places[k] == i);
                    }
                }
            } else {
                if is_first_of_tag(h, last) {
                    assert(all[all.len() - 1] == last);
                }
                if all.contains(i) {
                    let k = choose|k: int| 0 <= k < all.len() && all[k] == i;
                    if k < places.len() {
                        assert(places[k] == i);
                    }
                }
            }
        }
        assert forall|k: int| 0 <= k < all.len() implies 0 <= #[trigger] all[k] < h.len()
            && distinct_hashes(h)[k] == h[all[k]] by {
            if k < places.len() {
                assert(all[k] == places[k]);
                assert(kept[k] == front[places[k]]);
            }
        }
    }
}

proof fn lemma_has_first(h: Seq<SnapshotView>, j: int)
    requires
        0 <= j < h.len(),
    ensures
        exists|f: int|
            0 <= f <= j && #[trigger] is_first_of_tag(h, f) && h[f].hash == h[j].hash,
    decreases j,
{
    if is_first_of_tag(h, j) {
        assert(is_first_of_tag(h, j) && h[j].hash == h[j].hash);
    } else {
        let i = choose|i: int| 0 <= i < j && (#[trigger] h[i]).hash == h[j].hash;
        lemma_has_first(h, i);
        let f = choose|f: int|
            0 <= f <= i && #[trigger] is_first_of_tag(h, f) && h[f].hash == h[i].hash;
        assert(is_first_of_tag(h, f) && h[f].hash == h[j].hash);
    }
}

/// The snapshots under another path, with all else that is known of them.
pub open spec fn carried(source: Seq<SnapshotView>, to: Seq<char>) -> Seq<SnapshotView> {
    Seq::new(
        source.len(),
        |i: int|
            SnapshotView {
                path: to,
                text: source[i].text,
                hash: source[i].hash,
                seen_lines: source[i].seen_lines,
            },
    )
}

/// Moving the snapshots of a path, in full. They become those of the other path, with all that is
/// known of them. Where that path had some, the moved ones come first, of those with the same tag
/// only the first is kept, and as many as have room. The old path is gone, the new one is the path
/// used last, and all others stay. A path without snapshots leaves everything as it was.
pub proof fn law_moving_in_full(store: StoreView, from: Seq<char>, to: Seq<char>)
    requires
        is_valid(store),
        store.max_paths >= 1,
    ensures
        !store.versions.contains_key(from) ==> relocated(store, from, to) == store,
        store.versions.contains_key(from) ==> relocated(store, from, to).order == seq![to] + others(
            others(store.order, from),
            to,
        ),
        forall|k: Seq<char>|
            k != from && k != to ==> #[trigger] history(relocated(store, from, to), k) == history(
                store,
                k,
            ),
        from != to ==> history(relocated(store, from, to), from).len() == 0,
        store.versions.contains_key(from) && (from == to || !store.versions.contains_key(to))
            ==> history(relocated(store, from, to), to) == carried(history(store, from), to),
        store.versions.contains_key(from) && from != to && store.versions.contains_key(to)
            ==> exists|places: Seq<int>, kept: Seq<SnapshotView>|
            #[trigger] are_first_of_tags(
                carried(history(store, from), to) + store.versions[to],
                places,
                kept,
            ) && history(relocated(store, from, to), to) == if kept.len() <= store.max_versions {
                kept
            } else {
                kept.take(store.max_versions as int)
            },
{
    if store.versions.contains_key(from) {
        let source = store.versions[from];
        let moved = at_path(source, to);
        let rest = invalidated(store, from);
        lemma_others(store.order, from);
        lemma_others_contains(store.order, from);
        lemma_others_distinct(store.order, from);
        lemma_others_len(store.order, from);
        let h = if rest.versions.contains_key(to) {
            truncated(distinct_hashes(moved + rest.versions[to]), store.max_versions)
        } else {
            moved
        };
        let before = with_history(rest, to, h);
        lemma_touched(before, to);
        lemma_others_contains(rest.order, to);
        lemma_others_len(rest.order, to);
        assert(store.order.contains(from));
        assert(with_room(rest.order, to, store.max_paths) == others(rest.order, to));
        let done = relocated(store, from, to);
        assert(history(done, to) == h);
        assert forall|k: Seq<char>| k != from && k != to implies #[trigger] history(done, k)
            == history(store, k) by {
            if others(rest.order, to).contains(k) {
                assert(history(done, k) == history(before, k));
            } else {
                assert(!rest.order.contains(k));
                assert(!store.order.contains(k));
                assert(!store.versions.contains_key(k));
                assert(!done.versions.contains_key(k));
            }
        }
        assert(carried(source, to) =~= moved);
        if rest.versions.contains_key(to) {
            lemma_first_of_tags(moved + store.versions[to]);
        }
        assert(done.order == seq![to] + others(others(store.order, from), to));
        if from != to {
            assert(!rest.order.contains(from));
            assert(!others(rest.order, to).contains(from));
            assert(!before.versions.contains_key(from));
            assert(history(done, from).len() == 0);
        }
        if from == to || !store.versions.contains_key(to) {
            assert(!rest.versions.contains_key(to));
            assert(history(done, to) == moved);
        } else {
            assert(rest.versions.contains_key(to));
            assert(rest.versions[to] == store.versions[to]);
            assert(history(store, from) == source);
            let all = carried(history(store, from), to) + store.versions[to];
            assert(all == moved + store.versions[to]);
            let kept = distinct_hashes(all);
            assert(are_first_of_tags(all, first_places(all), kept) && history(done, to) == if kept.len()
                <= store.max_versions {
                kept
            } else {
                kept.take(store.max_versions as int)
            });
        }
    }
}

proof fn lemma_others_len(order: Seq<Seq<char>>, path: Seq<char>)
    requires
        order.no_duplicates(),
    ensures
        others(order, path).len() <= order.len(),
        order.contains(path) ==> others(order, path).len() < order.len(),
{
    lemma_others(order, path);
    lemma_index_in(order, path);
    if order.contains(path) {
        let i = choose|i: int| 0 <= i < order.len() && order[i] == path;
        if index_in(order, path) >= order.len() {
            assert(order[i] != path);
        }
    }
}

} // verus!
