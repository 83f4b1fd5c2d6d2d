//! A cache of bounded size that gives up its least recently used entry.

use vstd::prelude::*;

verus! {

/// Some entry of `s` has key `key`.
pub open spec fn lru_contains<T>(s: Seq<(u32, T)>, key: u32) -> bool {
    exists|i: int| 0 <= i < s.len() && (#[trigger] s[i]).0 == key
}

/// The position of the entry with key `key`.
pub open spec fn lru_index<T>(s: Seq<(u32, T)>, key: u32) -> int {
    choose|i: int| 0 <= i < s.len() && (#[trigger] s[i]).0 == key
}

/// No key occurs twice.
pub open spec fn lru_distinct<T>(s: Seq<(u32, T)>) -> bool {
    forall|i: int, j: int| 0 <= i < j < s.len() ==> (#[trigger] s[i]).0 != (#[trigger] s[j]).0
}

/// The value cached for `key`, if any.
pub open spec fn lru_get<T>(s: Seq<(u32, T)>, key: u32) -> Option<T> {
    if lru_contains(s, key) {
        Some(s[lru_index(s, key)].1)
    } else {
        None
    }
}

/// The entries without the one for `key`.
pub open spec fn lru_remove<T>(s: Seq<(u32, T)>, key: u32) -> Seq<(u32, T)> {
    if lru_contains(s, key) {
        s.remove(lru_index(s, key))
    } else {
        s
    }
}

/// The entries after a use of `key`: its entry moves to the most recent end.
pub open spec fn lru_touch<T>(s: Seq<(u32, T)>, key: u32) -> Seq<(u32, T)> {
    if lru_contains(s, key) {
        s.remove(lru_index(s, key)).push(s[lru_index(s, key)])
    } else {
        s
    }
}

/// The entries after `value` was cached for `key` in a cache of `capacity`
/// entries: an entry for the key is replaced; otherwise a full cache gives up
/// its least recently used entry first. The new entry is the most recent.
pub open spec fn lru_put<T>(s: Seq<(u32, T)>, capacity: nat, key: u32, value: T) -> Seq<(u32, T)> {
    if lru_contains(s, key) {
        s.remove(lru_index(s, key)).push((key, value))
    } else if s.len() >= capacity {
        s.remove(0).push((key, value))
    } else {
        s.push((key, value))
    }
}

/// Where no key occurs twice, a position that holds `key` is the position of
/// `key`.
pub proof fn lemma_lru_index_unique<T>(s: Seq<(u32, T)>, key: u32, i: int)
    requires
        lru_distinct(s),
        0 <= i < s.len(),
        s[i].0 == key,
    ensures
        lru_contains(s, key),
        lru_index(s, key) == i,
{
    let k = lru_index(s, key);
    assert(0 <= k < s.len() && s[k].0 == key);
    if k < i {
        assert(s[k].0 != s[i].0);
    } else if i < k {
        assert(s[i].0 != s[k].0);
    }
}

/// Removing one entry keeps the keys distinct.
pub proof fn lemma_lru_remove_distinct<T>(s: Seq<(u32, T)>, k: int)
    requires
        lru_distinct(s),
        0 <= k < s.len(),
    ensures
        lru_distinct(s.remove(k)),
        forall|i: int| 0 <= i < s.len() - 1 ==> (#[trigger] s.remove(k)[i]).0 != s[k].0,
{
    let r = s.remove(k);
    assert forall|i: int, j: int| 0 <= i < j < r.len() implies (#[trigger] r[i]).0 != (#[trigger] r[j]).0 by {
        let si = if i < k { i } else { i + 1 };
        let sj = if j < k { j } else { j + 1 };
        assert(s[si].0 != s[sj].0);
    }
    assert forall|i: int| 0 <= i < s.len() - 1 implies (#[trigger] r[i]).0 != s[k].0 by {
        let si = if i < k { i } else { i + 1 };
        if si < k {
            assert(s[si].0 != s[k].0);
        } else {
            assert(s[k].0 != s[si].0);
        }
    }
}

/// After a put the key is cached with the new value, the keys are distinct
/// and the cache is within its capacity.
pub proof fn lemma_lru_put<T>(s: Seq<(u32, T)>, capacity: nat, key: u32, value: T)
    requires
        lru_distinct(s),
        s.len() <= capacity,
        capacity > 0,
    ensures
        lru_distinct(lru_put(s, capacity, key, value)),
        lru_put(s, capacity, key, value).len() <= capacity,
        lru_get(lru_put(s, capacity, key, value), key) == Some(value),
        lru_put(s, capacity, key, value).len() > 0,
        lru_put(s, capacity, key, value).last() == (key, value),
{
    let after = lru_put(s, capacity, key, value);
    let base = after.drop_last();
    if lru_contains(s, key) {
        let k = lru_index(s, key);
        lemma_lru_remove_distinct(s, k);
        assert(base =~= s.remove(k));
    } else if s.len() >= capacity {
        lemma_lru_remove_distinct(s, 0);
        assert(base =~= s.remove(0));
        assert forall|i: int| 0 <= i < base.len() implies (#[trigger] base[i]).0 != key by {
            assert(s[i + 1].0 != key);
        }
    } else {
        assert(base =~= s);
        assert forall|i: int| 0 <= i < base.len() implies (#[trigger] base[i]).0 != key by {
            assert(s[i].0 != key);
        }
    }
    assert forall|i: int, j: int| 0 <= i < j < after.len() implies (#[trigger] after[i]).0 != (
    #[trigger] after[j]).0 by {
        if j == after.len() - 1 {
            assert(after[i] == base[i]);
        } else {
            assert(base[i].0 != base[j].0);
        }
    }
    lemma_lru_index_unique(after, key, after.len() - 1);
}

/// After a put, each entry is the new one or one that was cached before
/// under another key.
pub proof fn lemma_lru_put_elements<T>(s: Seq<(u32, T)>, capacity: nat, key: u32, value: T)
    requires
        lru_distinct(s),
        capacity > 0,
    ensures
        forall|i: int|
            0 <= i < lru_put(s, capacity, key, value).len() ==> #[trigger] lru_put(
                s,
                capacity,
                key,
                value,
            )[i] == (key, value) || (lru_put(s, capacity, key, value)[i].0 != key && s.contains(
                lru_put(s, capacity, key, value)[i],
            )),
{
    let after = lru_put(s, capacity, key, value);
    assert forall|i: int| 0 <= i < after.len() implies #[trigger] after[i] == (key, value) || (
    after[i].0 != key && s.contains(after[i])) by {
        if i < after.len() - 1 {
            if lru_contains(s, key) {
                let k = lru_index(s, key);
                lemma_lru_remove_distinct(s, k);
                let si = if i < k { i } else { i + 1 };
                assert(after[i] == s[si]);
                assert(s.remove(k)[i].0 != s[k].0);
            } else if s.len() >= capacity {
                assert(after[i] == s[i + 1]);
                assert(s[i + 1].0 != key);
            } else {
                assert(after[i] == s[i]);
                assert(s[i].0 != key);
            }
        }
    }
}

/// After a use, each entry was cached before; after a removal, each entry
/// was cached before under another key.
pub proof fn lemma_lru_kept_elements<T>(s: Seq<(u32, T)>, key: u32)
    requires
        lru_distinct(s),
    ensures
        forall|i: int|
            0 <= i < lru_touch(s, key).len() ==> s.contains(#[trigger] lru_touch(s, key)[i]),
        forall|i: int|
            0 <= i < lru_remove(s, key).len() ==> s.contains(#[trigger] lru_remove(s, key)[i])
                && lru_remove(s, key)[i].0 != key,
{
    let touched = lru_touch(s, key);
    let removed = lru_remove(s, key);
    if lru_contains(s, key) {
        let k = lru_index(s, key);
        lemma_lru_remove_distinct(s, k);
        assert forall|i: int| 0 <= i < touched.len() implies s.contains(#[trigger] touched[i]) by {
            if i < touched.len() - 1 {
                let si = if i < k { i } else { i + 1 };
                assert(touched[i] == s[si]);
            } else {
                assert(touched[i] == s[k]);
            }
        }
        assert forall|i: int| 0 <= i < removed.len() implies s.contains(#[trigger] removed[i])
            && removed[i].0 != key by {
            let si = if i < k { i } else { i + 1 };
            assert(removed[i] == s[si]);
            assert(s.remove(k)[i].0 != s[k].0);
        }
    } else {
        assert forall|i: int| 0 <= i < removed.len() implies s.contains(#[trigger] removed[i])
            && removed[i].0 != key by {
            assert(removed[i] == s[i]);
            assert(s[i].0 != key);
        }
        assert forall|i: int| 0 <= i < touched.len() implies s.contains(#[trigger] touched[i]) by {
            assert(touched[i] == s[i]);
        }
    }
}

/// A cache of at most `capacity` entries, keyed by page address and kept from
/// the least recently used to the most recently used.
pub struct LRUCache<T> {
    capacity: usize,
    entries: Vec<(u32, T)>,
}

impl<T: Copy> View for LRUCache<T> {
    type V = Seq<(u32, T)>;

    /// The entries, least recently used first.
    closed spec fn view(&self) -> Seq<(u32, T)> {
        self.entries@
    }
}

impl<T: Copy> LRUCache<T> {
    /// The most entries that the cache holds.
    pub closed spec fn spec_capacity(&self) -> nat {
        self.capacity as nat
    }

    /// The cache is within its capacity and caches no key twice.
    pub open spec fn wf(&self) -> bool {
        &&& self@.len() <= self.spec_capacity()
        &&& self.spec_capacity() > 0
        &&& lru_distinct(self@)
    }

    /// An empty cache of `capacity` entries.
    pub fn new(capacity: usize) -> (cache: LRUCache<T>)
        requires
            capacity > 0,
        ensures
            cache.wf(),
            cache@.len() == 0,
            cache.spec_capacity() == capacity,
    {
        LRUCache { capacity, entries: Vec::new() }
    }

    /// The position of the entry for `key`, if there is one.
    fn position(&self, key: u32) -> (r: Option<usize>)
        requires
            self.wf(),
        ensures
            r is Some <==> lru_contains(self@, key),
            r is Some ==> r->0 == lru_index(self@, key) && r->0 < self@.len(),
    {
        let mut i: usize = 0;
        while i < self.entries.len()
            invariant
                self.wf(),
                i <= self.entries@.len(),
                forall|j: int| 0 <= j < i ==> (#[trigger] self.entries@[j]).0 != key,
            decreases self.entries@.len() - i,
        {
            if self.entries[i].0 == key {
                proof {
                    lemma_lru_index_unique(self@, key, i as int);
                }
                return Some(i);
            }
            i = i + 1;
        }
        None
    }

    /// The value cached for `key`, if any; the entry becomes the most
    /// recently used.
    pub fn get(&mut self, key: u32) -> (r: Option<T>)
        requires
            old(self).wf(),
        ensures
            final(self).wf(),
            final(self).spec_capacity() == old(self).spec_capacity(),
            r == lru_get(old(self)@, key),
            final(self)@ == lru_touch(old(self)@, key),
    {
        match self.position(key) {
            Some(i) => {
                let entry = self.entries.remove(i);
                self.entries.push(entry);
                proof {
                    lemma_lru_remove_distinct(old(self)@, i as int);
                    let base = old(self)@.remove(i as int);
                    let after = self@;
                    assert(after =~= base.push(old(self)@[i as int]));
                    assert forall|a: int, b: int| 0 <= a < b < after.len() implies (
                    #[trigger] after[a]).0 != (#[trigger] after[b]).0 by {
                        if b == after.len() - 1 {
                            assert(after[a] == base[a]);
                        } else {
                            assert(base[a].0 != base[b].0);
                        }
                    }
                }
                Some(entry.1)
            },
            None => None,
        }
    }

    /// Caches `value` for `key` as the most recently used entry. An entry for
    /// the key is replaced; otherwise a full cache gives up its least
    /// recently used entry.
    pub fn put(&mut self, key: u32, value: T)
        requires
            old(self).wf(),
        ensures
            final(self).wf(),
            final(self).spec_capacity() == old(self).spec_capacity(),
            final(self)@ == lru_put(old(self)@, old(self).spec_capacity(), key, value),
    {
        proof {
            lemma_lru_put(self@, self.spec_capacity(), key, value);
        }
        match self.position(key) {
            Some(i) => {
                self.entries.remove(i);
            },
            None => {
                if self.entries.len() >= self.capacity {
                    self.entries.remove(0);
                }
            },
        }
        self.entries.push((key, value));
    }

    /// Drops the entry for `key`, if there is one.
    pub fn remove(&mut self, key: u32)
        requires
            old(self).wf(),
        ensures
            final(self).wf(),
            final(self).spec_capacity() == old(self).spec_capacity(),
            final(self)@ == lru_remove(old(self)@, key),
    {
        match self.position(key) {
            Some(i) => {
                self.entries.remove(i);
                proof {
                    lemma_lru_remove_distinct(old(self)@, i as int);
                }
            },
            None => {},
        }
    }
}

} // verus!
