//! A map from strings to values, kept as a list of entries.

use crate::text::{same_text, strs};
use vstd::prelude::*;

verus! {

/// A map whose keys are strings. Its model is a `Map` from the characters of a key to its value.
#[derive(Debug)]
pub struct StringMap<V> {
    entries: Vec<(String, V)>,
}

/// The first entry with key `k`, or the number of entries where there is none.
pub open spec fn entry_at<V>(entries: Seq<(String, V)>, k: Seq<char>) -> int
    decreases entries.len(),
{
    if entries.len() == 0 {
        0
    } else if entries[0].0@ == k {
        0
    } else {
        1 + entry_at(entries.skip(1), k)
    }
}

pub proof fn lemma_entry_at<V>(entries: Seq<(String, V)>, k: Seq<char>)
    ensures
        0 <= entry_at(entries, k) <= entries.len(),
        entry_at(entries, k) < entries.len() ==> entries[entry_at(entries, k)].0@ == k,
        forall|i: int| 0 <= i < entry_at(entries, k) ==> (#[trigger] entries[i]).0@ != k,
    decreases entries.len(),
{
    if entries.len() > 0 && entries[0].0@ != k {
        let rest = entries.skip(1);
        lemma_entry_at(rest, k);
        assert forall|i: int| 0 <= i < entry_at(entries, k) implies (#[trigger] entries[i]).0@
            != k by {
            if i > 0 {
                assert(entries[i] == rest[i - 1]);
            }
        }
    }
}

pub proof fn lemma_entry_at_is<V>(entries: Seq<(String, V)>, k: Seq<char>, n: int)
    requires
        0 <= n <= entries.len(),
        n < entries.len() ==> entries[n].0@ == k,
        forall|i: int| 0 <= i < n ==> (#[trigger] entries[i]).0@ != k,
    ensures
        entry_at(entries, k) == n,
{
    lemma_entry_at(entries, k);
    let m = entry_at(entries, k);
    if m < n {
        assert(entries[m].0@ != k);
    } else if n < m {
        assert(entries[n].0@ != k);
    }
}

/// The bindings that a list of entries stands for: each key to the value of its first entry.
pub open spec fn bindings<V>(entries: Seq<(String, V)>) -> Map<Seq<char>, V> {
    Map::new(
        |k: Seq<char>| entry_at(entries, k) < entries.len(),
        |k: Seq<char>| entries[entry_at(entries, k)].1,
    )
}

impl<V> View for StringMap<V> {
    type V = Map<Seq<char>, V>;

    closed spec fn view(&self) -> Map<Seq<char>, V> {
        bindings(self.entries@)
    }
}

impl<V> StringMap<V> {
    pub fn new() -> (m: Self)
        ensures
            m@ == Map::<Seq<char>, V>::empty(),
    {
        let m = StringMap { entries: Vec::new() };
        proof {
            assert(m@ =~= Map::<Seq<char>, V>::empty());
        }
        m
    }

    fn position(&self, key: &str) -> (n: usize)
        ensures
            n == entry_at(self.entries@, key@),
            n <= self.entries@.len(),
    {
        let mut n: usize = 0;
        while n < self.entries.len()
            invariant
                n <= self.entries@.len(),
                forall|i: int| 0 <= i < n ==> (#[trigger] self.entries@[i]).0@ != key@,
            decreases self.entries.len() - n,
        {
            if same_text(self.entries[n].0.as_str(), key) {
                proof {
                    lemma_entry_at_is(self.entries@, key@, n as int);
                }
                return n;
            }
            n += 1;
        }
        proof {
            lemma_entry_at_is(self.entries@, key@, n as int);
        }
        n
    }

    pub fn get(&self, key: &str) -> (r: Option<&V>)
        ensures
            match r {
                Some(v) => self@.contains_key(key@) && *v == self@[key@],
                None => !self@.contains_key(key@),
            },
    {
        let n = self.position(key);
        if n < self.entries.len() {
            Some(&self.entries[n].1)
        } else {
            None
        }
    }

    fn value_at(&mut self, n: usize) -> (r: &mut V)
        requires
            n < old(self).entries@.len(),
        ensures
            *r == old(self).entries@[n as int].1,
            final(self).entries@ == old(self).entries@.update(
                n as int,
                (old(self).entries@[n as int].0, *final(r)),
            ),
    {
        &mut self.entries[n].1
    }

    pub fn get_mut(&mut self, key: &str) -> (r: Option<&mut V>)
        ensures
            match r {
                Some(v) => old(self)@.contains_key(key@) && *v == old(self)@[key@] && final(self)@
                    == old(self)@.insert(key@, *final(v)),
                None => !old(self)@.contains_key(key@) && *final(self) == *old(self),
            },
    {
        let n = self.position(key);
        if n < self.entries.len() {
            proof {
                let a = self.entries@;
                lemma_entry_at(a, key@);
                assert forall|v: V|
                    bindings(#[trigger] a.update(n as int, (a[n as int].0, v))) == bindings(
                        a,
                    ).insert(key@, v) by {
                    lemma_update_entry(a, key@, a[n as int].0, v);
                }
            }
            Some(self.value_at(n))
        } else {
            None
        }
    }

    /// The value of `key`, which is bound to `value` where it was not bound.
    pub fn get_or_insert(&mut self, key: &str, value: V) -> (r: &mut V)
        ensures
            *r == if old(self)@.contains_key(key@) {
                old(self)@[key@]
            } else {
                value
            },
            final(self)@ == old(self)@.insert(key@, *final(r)),
    {
        let n = self.position(key);
        if n >= self.entries.len() {
            let name = key.to_owned();
            proof {
                lemma_push_entry(self.entries@, name, value);
                lemma_entry_at(self.entries@, key@);
                lemma_entry_at_is(self.entries@.push((name, value)), key@, n as int);
            }
            self.entries.push((name, value));
        }
        proof {
            let a = self.entries@;
            assert forall|v: V|
                bindings(#[trigger] a.update(n as int, (a[n as int].0, v))) == bindings(
                    old(self).entries@,
                ).insert(key@, v) by {
                lemma_entry_at(a, key@);
                lemma_update_entry(a, key@, a[n as int].0, v);
                assert(bindings(a).insert(key@, v) =~= bindings(old(self).entries@).insert(
                    key@,
                    v,
                ));
            }
        }
        self.value_at(n)
    }

    /// Bind `key` to `value`, in place of what it was bound to.
    pub fn insert(&mut self, key: &str, value: V)
        ensures
            final(self)@ == old(self)@.insert(key@, value),
    {
        let n = self.position(key);
        let name = key.to_owned();
        if n < self.entries.len() {
            proof {
                lemma_update_entry(self.entries@, key@, name, value);
            }
            self.entries.set(n, (name, value));
        } else {
            proof {
                lemma_push_entry(self.entries@, name, value);
            }
            self.entries.push((name, value));
        }
    }

    /// Unbind `key`.
    pub fn remove(&mut self, key: &str) -> (r: Option<V>)
        ensures
            final(self)@ == old(self)@.remove(key@),
            match r {
                Some(v) => old(self)@.contains_key(key@) && v == old(self)@[key@],
                None => !old(self)@.contains_key(key@),
            },
    {
        let n = self.position(key);
        if n >= self.entries.len() {
            proof {
                assert(self@ =~= old(self)@.remove(key@));
            }
            return None;
        }
        proof {
            lemma_take_entry(self.entries@, key@);
        }
        let first = self.entries.remove(n);
        let mut more = self.position(key);
        while more < self.entries.len()
            invariant
                more == entry_at(self.entries@, key@),
                self@.remove(key@) == old(self)@.remove(key@),
            decreases self.entries.len(),
        {
            proof {
                lemma_take_entry(self.entries@, key@);
            }
            self.entries.remove(more);
            more = self.position(key);
        }
        proof {
            assert(self@ =~= self@.remove(key@));
        }
        Some(first.1)
    }

    /// The keys, each once, in the order in which they were first bound.
    pub fn keys(&self) -> (out: Vec<String>)
        ensures
            strs(out@).no_duplicates(),
            forall|k: Seq<char>| #[trigger] self@.contains_key(k) <==> strs(out@).contains(k),
    {
        let mut out: Vec<String> = Vec::new();
        let mut i: usize = 0;
        proof {
            assert forall|k: Seq<char>|
                entry_at(self.entries@, k) < 0 <==> #[trigger] strs(out@).contains(k) by {
                lemma_entry_at(self.entries@, k);
            }
        }
        while i < self.entries.len()
            invariant
                i <= self.entries.len(),
                strs(out@).no_duplicates(),
                forall|k: Seq<char>|
                    entry_at(self.entries@, k) < i <==> #[trigger] strs(out@).contains(k),
            decreases self.entries.len() - i,
        {
            let at = self.position(self.entries[i].0.as_str());
            let ghost key = self.entries@[i as int].0@;
            let ghost before = strs(out@);
            if at == i {
                out.push(self.entries[i].0.clone());
                proof {
                    assert(strs(out@) =~= before.push(key));
                    assert(!before.contains(key));
                    lemma_push_contains(before, key);
                }
            }
            proof {
                assert forall|k: Seq<char>|
                    entry_at(self.entries@, k) < i + 1 <==> #[trigger] strs(out@).contains(k) by {
                    lemma_entry_at(self.entries@, k);
                    lemma_entry_at(self.entries@, key);
                    assert(entry_at(self.entries@, k) < i <==> before.contains(k));
                }
            }
            i += 1;
        }
        out
    }

    pub fn is_empty(&self) -> (yes: bool)
        ensures
            yes == (self@ == Map::<Seq<char>, V>::empty()),
    {
        proof {
            if self.entries@.len() > 0 {
                lemma_entry_at(self.entries@, self.entries@[0].0@);
                assert(self@.contains_key(self.entries@[0].0@));
            } else {
                assert(self@ =~= Map::<Seq<char>, V>::empty());
            }
        }
        self.entries.len() == 0
    }
}

/// Giving the first entry of a key another value changes that binding and no other.
proof fn lemma_update_entry<V>(a: Seq<(String, V)>, key: Seq<char>, name: String, v: V)
    requires
        entry_at(a, key) < a.len(),
        name@ == key,
    ensures
        bindings(a.update(entry_at(a, key), (name, v))) == bindings(a).insert(key, v),
{
    let n = entry_at(a, key);
    let b = a.update(n, (name, v));
    lemma_entry_at(a, key);
    assert forall|k: Seq<char>| #[trigger] entry_at(b, k) == entry_at(a, k) by {
        lemma_entry_at(a, k);
        let m = entry_at(a, k);
        assert forall|i: int| 0 <= i < m implies (#[trigger] b[i]).0@ != k by {
            assert(a[i].0@ != k);
        }
        lemma_entry_at_is(b, k, m);
    }
    assert forall|k: Seq<char>| k != key && #[trigger] entry_at(a, k) < a.len() implies entry_at(
        a,
        k,
    ) != n by {
        lemma_entry_at(a, k);
    }
    assert forall|k: Seq<char>| #[trigger]
        bindings(b).contains_key(k) == bindings(a).insert(key, v).contains_key(k) by {
        assert(entry_at(b, k) == entry_at(a, k));
    }
    assert forall|k: Seq<char>| #[trigger] bindings(b).contains_key(k) implies bindings(b)[k]
        == bindings(a).insert(key, v)[k] by {
        assert(entry_at(b, k) == entry_at(a, k));
        lemma_entry_at(a, k);
        if k != key {
            assert(entry_at(a, k) != n);
            assert(b[entry_at(a, k)] == a[entry_at(a, k)]);
        } else {
            assert(b[n] == (name, v));
        }
    }
    assert(bindings(b) =~= bindings(a).insert(key, v));
}

/// An entry for a new key adds that binding and changes no other.
proof fn lemma_push_entry<V>(a: Seq<(String, V)>, name: String, v: V)
    requires
        entry_at(a, name@) == a.len(),
    ensures
        bindings(a.push((name, v))) == bindings(a).insert(name@, v),
{
    let key = name@;
    let b = a.push((name, v));
    lemma_entry_at(a, key);
    assert forall|k: Seq<char>| #[trigger]
        entry_at(b, k) == if k == key || entry_at(a, k) < a.len() {
            entry_at(a, k)
        } else {
            b.len() as int
        } by {
        lemma_entry_at(a, k);
        let m = entry_at(a, k);
        assert forall|i: int| 0 <= i < m implies (#[trigger] b[i]).0@ != k by {
            assert(a[i].0@ != k);
        }
        if k == key || m < a.len() {
            lemma_entry_at_is(b, k, m);
        } else {
            lemma_entry_at_is(b, k, b.len() as int);
        }
    }
    assert forall|k: Seq<char>| #[trigger]
        bindings(b).contains_key(k) == bindings(a).insert(key, v).contains_key(k) by {
        lemma_entry_at(a, k);
        assert(entry_at(b, k) <= b.len());
    }
    assert forall|k: Seq<char>| #[trigger] bindings(b).contains_key(k) implies bindings(b)[k]
        == bindings(a).insert(key, v)[k] by {
        lemma_entry_at(a, k);
        assert(entry_at(b, k) < b.len());
    }
    assert(bindings(b) =~= bindings(a).insert(key, v));
}

/// Taking the first entry of a key out touches no other key.
proof fn lemma_take_entry<V>(a: Seq<(String, V)>, key: Seq<char>)
    requires
        entry_at(a, key) < a.len(),
    ensures
        bindings(a.remove(entry_at(a, key))).remove(key) == bindings(a).remove(key),
{
    let n = entry_at(a, key);
    let b = a.remove(n);
    lemma_entry_at(a, key);
    let left = bindings(b).remove(key);
    let right = bindings(a).remove(key);
    assert forall|k: Seq<char>| #[trigger] left.contains_key(k) == right.contains_key(k) && (
    left.contains_key(k) ==> left[k] == right[k]) by {
        if k != key {
            lemma_entry_at(a, k);
            lemma_remove_entry(a, n, k);
        }
    }
    assert(left =~= right);
}

/// A new element keeps a sequence free of duplicates, and is all that it adds.
proof fn lemma_push_contains(s: Seq<Seq<char>>, x: Seq<char>)
    requires
        s.no_duplicates(),
        !s.contains(x),
    ensures
        s.push(x).no_duplicates(),
        forall|k: Seq<char>| #[trigger] s.push(x).contains(k) <==> s.contains(k) || k == x,
{
    let t = s.push(x);
    assert forall|k: Seq<char>| #[trigger] t.contains(k) <==> s.contains(k) || k == x by {
        if t.contains(k) {
            let i = choose|i: int| 0 <= i < t.len() && t[i] == k;
            if i < s.len() {
                assert(s[i] == k);
            }
        }
        if s.contains(k) {
            let i = choose|i: int| 0 <= i < s.len() && s[i] == k;
            assert(t[i] == k);
        }
        assert(t[s.len() as int] == x);
    }
    assert forall|i: int, j: int| 0 <= i < t.len() && 0 <= j < t.len() && i != j implies t[i]
        != t[j] by {
        if i == s.len() {
            assert(s[j] != x);
        } else if j == s.len() {
            assert(s[i] != x);
        }
    }
}

/// Taking one entry out leaves every other key where it was, or one place further up.
proof fn lemma_remove_entry<V>(a: Seq<(String, V)>, n: int, k: Seq<char>)
    requires
        0 <= n < a.len(),
        a[n].0@ != k,
    ensures
        entry_at(a.remove(n), k) == if entry_at(a, k) < n {
            entry_at(a, k)
        } else {
            entry_at(a, k) - 1
        },
        entry_at(a, k) != n,
{
    let b = a.remove(n);
    lemma_entry_at(a, k);
    let m = entry_at(a, k);
    if m < n {
        assert forall|i: int| 0 <= i < m implies (#[trigger] b[i]).0@ != k by {
            assert(a[i].0@ != k);
        }
        lemma_entry_at_is(b, k, m);
    } else {
        assert forall|i: int| 0 <= i < m - 1 implies (#[trigger] b[i]).0@ != k by {
            if i < n {
                assert(a[i].0@ != k);
            } else {
                assert(a[i + 1].0@ != k);
            }
        }
        lemma_entry_at_is(b, k, m - 1);
    }
}

} // verus!
