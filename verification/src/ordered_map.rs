//! A map from 128-bit keys to values, kept in increasing key order.
use vstd::prelude::*;

verus! {

/// Keys of a sequence of entries are strictly increasing.
pub open spec fn strictly_sorted<V>(s: Seq<(u128, V)>) -> bool {
    forall|i: int, j: int| 0 <= i < j < s.len() ==> s[i].0 < s[j].0
}

/// Number of entries whose key is below `k`.
pub open spec fn count_below<V>(s: Seq<(u128, V)>, k: u128) -> int
    decreases s.len(),
{
    if s.len() == 0 {
        0
    } else {
        count_below(s.drop_last(), k) + if s.last().0 < k { 1int } else { 0int }
    }
}

/// An ordered map: its entries, in increasing key order, with no key twice.
pub struct OrderedMap<V> {
    entries: Vec<(u128, V)>,
}

impl<V> View for OrderedMap<V> {
    type V = Seq<(u128, V)>;

    closed spec fn view(&self) -> Seq<(u128, V)> {
        self.entries@
    }
}

/// The entry at position `i` holds key `k`.
pub open spec fn has_key_at<V>(s: Seq<(u128, V)>, i: int, k: u128) -> bool {
    0 <= i < s.len() && s[i].0 == k
}

pub open spec fn contains_key<V>(s: Seq<(u128, V)>, k: u128) -> bool {
    exists|i: int| has_key_at(s, i, k)
}

/// Position of the first entry whose key is not below `k` (the length if none).
pub open spec fn is_lower_bound<V>(s: Seq<(u128, V)>, k: u128, p: int) -> bool {
    &&& 0 <= p <= s.len()
    &&& forall|i: int| 0 <= i < p ==> s[i].0 < k
    &&& forall|i: int| p <= i < s.len() ==> s[i].0 >= k
}

impl<V: Copy> OrderedMap<V> {
    /// An empty map.
    pub fn new() -> (r: Self)
        ensures
            r@ == Seq::<(u128, V)>::empty(),
    {
        OrderedMap { entries: Vec::new() }
    }

    /// The map of `entries`, if their keys are strictly increasing.
    pub fn from_entries(entries: Vec<(u128, V)>) -> (r: Option<Self>)
        ensures
            r is Some <==> strictly_sorted(entries@),
            r matches Some(m) ==> m@ == entries@,
    {
        let n = entries.len();
        let mut i: usize = 1;
        while i < n
            invariant
                n == entries@.len(),
                1 <= i,
                forall|a: int, b: int| 0 <= a < b < i && b < n ==> entries@[a].0 < entries@[b].0,
            decreases n - i,
        {
            if entries[i - 1].0 >= entries[i].0 {
                return None;
            }
            i = i + 1;
        }
        Some(OrderedMap { entries })
    }

    /// Number of entries.
    pub fn len(&self) -> (r: usize)
        ensures
            r == self@.len(),
    {
        self.entries.len()
    }

    /// The entry at position `i` in key order.
    pub fn entry_at(&self, i: usize) -> (r: (u128, V))
        requires
            i < self@.len(),
        ensures
            r == self@[i as int],
    {
        self.entries[i]
    }

    /// Position of the first entry whose key is not below `key`.
    pub fn lower_bound(&self, key: u128) -> (p: usize)
        requires
            strictly_sorted(self@),
        ensures
            is_lower_bound(self@, key, p as int),
    {
        let mut lo: usize = 0;
        let mut hi: usize = self.entries.len();
        while lo < hi
            invariant
                0 <= lo <= hi <= self.entries@.len(),
                strictly_sorted(self.entries@),
                forall|i: int| 0 <= i < lo ==> self.entries@[i].0 < key,
                forall|i: int| hi <= i < self.entries@.len() ==> self.entries@[i].0 >= key,
            decreases hi - lo,
        {
            let mid = lo + (hi - lo) / 2;
            if self.entries[mid].0 < key {
                lo = mid + 1;
            } else {
                hi = mid;
            }
        }
        lo
    }

    /// The value stored under `key`, if any.
    pub fn get(&self, key: u128) -> (r: Option<V>)
        requires
            strictly_sorted(self@),
        ensures
            r is Some <==> contains_key(self@, key),
            forall|i: int| has_key_at(self@, i, key) ==> r == Some(self@[i].1),
    {
        let p = self.lower_bound(key);
        if p < self.entries.len() && self.entries[p].0 == key {
            assert(has_key_at(self@, p as int, key));
            Some(self.entries[p].1)
        } else {
            proof {
                assert forall|i: int| !has_key_at(self@, i, key) by {
                    if has_key_at(self@, i, key) {
                        if i < p {
                        } else if i > p {
                            assert(self@[p as int].0 < self@[i].0);
                        }
                    }
                }
            }
            None
        }
    }

    /// Stores `value` under `key`, replacing the value there if the key is
    /// present, else inserting a new entry in key order.
    pub fn insert(&mut self, key: u128, value: V)
        requires
            strictly_sorted(old(self)@),
        ensures
            strictly_sorted(final(self)@),
            0 <= count_below(old(self)@, key) <= old(self)@.len(),
            ({
                let p = count_below(old(self)@, key);
                if contains_key(old(self)@, key) {
                    final(self)@ == old(self)@.update(p, (key, value))
                } else {
                    final(self)@ == old(self)@.insert(p, (key, value))
                }
            }),
    {
        let p = self.lower_bound(key);
        proof { lemma_lower_bound_count(self@, key, p as int); }
        if p < self.entries.len() && self.entries[p].0 == key {
            assert(has_key_at(self@, p as int, key));
            self.entries.set(p, (key, value));
        } else {
            proof {
                assert forall|i: int| !has_key_at(old(self)@, i, key) by {
                    if has_key_at(old(self)@, i, key) {
                        if i > p {
                            assert(old(self)@[p as int].0 < old(self)@[i].0);
                        }
                    }
                }
            }
            self.entries.insert(p, (key, value));
        }
    }

    /// Removes the entry at position `i`.
    pub fn remove_at(&mut self, i: usize) -> (r: (u128, V))
        requires
            strictly_sorted(old(self)@),
            i < old(self)@.len(),
        ensures
            strictly_sorted(final(self)@),
            r == old(self)@[i as int],
            final(self)@ == old(self)@.remove(i as int),
    {
        self.entries.remove(i)
    }

    /// Removes the entry under `key`, if any, and returns its value.
    pub fn remove(&mut self, key: u128) -> (r: Option<V>)
        requires
            strictly_sorted(old(self)@),
        ensures
            strictly_sorted(final(self)@),
            ({
                let p = count_below(old(self)@, key);
                if contains_key(old(self)@, key) {
                    &&& 0 <= p < old(self)@.len()
                    &&& r == Some(old(self)@[p].1)
                    &&& old(self)@[p].0 == key
                    &&& final(self)@ == old(self)@.remove(p)
                } else {
                    &&& r is None
                    &&& final(self)@ == old(self)@
                }
            }),
    {
        let p = self.lower_bound(key);
        proof { lemma_lower_bound_count(self@, key, p as int); }
        if p < self.entries.len() && self.entries[p].0 == key {
            assert(has_key_at(self@, p as int, key));
            let (_, v) = self.entries.remove(p);
            Some(v)
        } else {
            proof {
                assert forall|i: int| !has_key_at(old(self)@, i, key) by {
                    if has_key_at(old(self)@, i, key) {
                        if i > p {
                            assert(old(self)@[p as int].0 < old(self)@[i].0);
                        }
                    }
                }
            }
            None
        }
    }
}

/// The lower bound of a key is the number of entries below it.
pub proof fn lemma_lower_bound_count<V>(s: Seq<(u128, V)>, k: u128, p: int)
    requires
        is_lower_bound(s, k, p),
    ensures
        count_below(s, k) == p,
    decreases s.len(),
{
    if s.len() > 0 {
        let init = s.drop_last();
        if p == s.len() {
            lemma_lower_bound_count(init, k, p - 1);
        } else {
            lemma_lower_bound_count(init, k, p);
        }
    }
}

/// In entries kept in increasing key order, the number of entries below a
/// key is its lower bound.
pub proof fn lemma_count_below_bound<V>(s: Seq<(u128, V)>, k: u128)
    requires
        strictly_sorted(s),
    ensures
        is_lower_bound(s, k, count_below(s, k)),
    decreases s.len(),
{
    if s.len() > 0 {
        let n = s.len() - 1;
        let init = s.drop_last();
        assert forall|i: int, j: int| 0 <= i < j < init.len() implies init[i].0 < init[j].0 by {
            assert(init[i] == s[i] && init[j] == s[j]);
        }
        lemma_count_below_bound(init, k);
        let p0 = count_below(init, k);
        if s[n].0 < k {
            if p0 < init.len() {
                assert(init[p0].0 >= k);
                assert(s[p0].0 < s[n].0);
            }
            assert forall|i: int| 0 <= i < s.len() implies s[i].0 < k by {
                if i < n {
                    assert(s[i].0 < s[n].0);
                }
            }
        } else {
            assert forall|i: int| 0 <= i < p0 implies s[i].0 < k by {
                assert(s[i] == init[i]);
            }
            assert forall|i: int| p0 <= i < s.len() implies s[i].0 >= k by {
                if i < n {
                    assert(s[i] == init[i]);
                }
            }
        }
    }
}

impl<V: Copy> OrderedMap<V> {
    /// A copy of the map.
    pub fn copy(&self) -> (r: Self)
        ensures
            r@ == self@,
    {
        let mut entries: Vec<(u128, V)> = Vec::new();
        let n = self.entries.len();
        let mut i: usize = 0;
        while i < n
            invariant
                n == self.entries@.len(),
                i <= n,
                entries@ == self.entries@.take(i as int),
            decreases n - i,
        {
            entries.push(self.entries[i]);
            i = i + 1;
            proof {
                assert(entries@ =~= self.entries@.take(i as int));
            }
        }
        proof {
            assert(entries@ =~= self.entries@);
        }
        OrderedMap { entries }
    }

    /// The entries at positions `start` to `start + count`, in order.
    pub fn entries_between(&self, start: usize, count: usize) -> (r: Vec<(u128, V)>)
        requires
            start + count <= self@.len(),
        ensures
            r@ == self@.subrange(start as int, start + count),
    {
        let mut out: Vec<(u128, V)> = Vec::new();
        let len = self.entries.len();
        let mut i: usize = 0;
        while i < count
            invariant
                len == self.entries@.len(),
                start + count <= self.entries@.len(),
                i <= count,
                out@ == self.entries@.subrange(start as int, start + i),
            decreases count - i,
        {
            out.push(self.entries[start + i]);
            i = i + 1;
            proof {
                assert(out@ =~= self.entries@.subrange(start as int, start + i));
            }
        }
        out
    }

    /// Removes the entries at positions `start` to `start + count`.
    pub fn remove_range(&mut self, start: usize, count: usize)
        requires
            strictly_sorted(old(self)@),
            start + count <= old(self)@.len(),
        ensures
            strictly_sorted(final(self)@),
            final(self)@ == old(self)@.subrange(0, start as int) + old(self)@.subrange(start + count, old(self)@.len() as int),
    {
        let ghost o = self.entries@;
        let mut i: usize = 0;
        while i < count
            invariant
                start + count <= o.len(),
                i <= count,
                strictly_sorted(self.entries@),
                self.entries@ == o.subrange(0, start as int) + o.subrange(start + i, o.len() as int),
            decreases count - i,
        {
            self.entries.remove(start);
            i = i + 1;
            proof {
                assert(self.entries@ =~= o.subrange(0, start as int) + o.subrange(start + i, o.len() as int));
            }
        }
    }
}

} // verus!
