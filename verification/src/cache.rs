use vstd::prelude::*;

use crate::CoreError;

verus! {

/// A fixed-capacity key/value store with least-recently-used eviction.
///
/// Entries are kept in recency order, oldest first: the entry at the front
/// of the order is the next eviction candidate, and the entry at the back
/// was touched most recently by `get` or `put`.  A key appears at most
/// once, and the number of entries never exceeds the capacity.
pub struct LRUCache<V> {
    capacity: usize,
    entries: Vec<(String, V)>,
}

/// True when no key appears twice in the association list.
spec fn keys_distinct<V>(s: Seq<(String, V)>) -> bool {
    forall|i: int, j: int| 0 <= i < j < s.len() ==> (#[trigger] s[i]).0@ != (#[trigger] s[j]).0@
}

/// The value stored under key `k` in an association list, searching from
/// the most recently appended entry backwards.
spec fn assoc_lookup<V>(s: Seq<(String, V)>, k: Seq<char>) -> Option<V>
    decreases s.len(),
{
    if s.len() == 0 {
        None
    } else if s.last().0@ == k {
        Some(s.last().1)
    } else {
        assoc_lookup(s.drop_last(), k)
    }
}

/// `assoc_lookup` finds a value exactly when some entry carries the key,
/// and on a duplicate-free list that value is the entry's own.
proof fn lemma_assoc_lookup<V>(s: Seq<(String, V)>, k: Seq<char>)
    requires
        keys_distinct(s),
    ensures
        (assoc_lookup(s, k) is Some) <==> (exists|i: int|
            0 <= i < s.len() && (#[trigger] s[i]).0@ == k),
        forall|i: int|
            0 <= i < s.len() && (#[trigger] s[i]).0@ == k ==> assoc_lookup(s, k) == Some(s[i].1),
    decreases s.len(),
{
    if s.len() > 0 {
        let t = s.drop_last();
        assert(keys_distinct(t)) by {
            assert(forall|i: int| 0 <= i < t.len() ==> t[i] == s[i]);
        }
        lemma_assoc_lookup(t, k);
        if s.last().0@ == k {
            assert(s[s.len() - 1].0@ == k);
        } else {
            assert(forall|i: int| 0 <= i < t.len() ==> t[i] == s[i]);
            if exists|i: int| 0 <= i < s.len() && (#[trigger] s[i]).0@ == k {
                let i = choose|i: int| 0 <= i < s.len() && (#[trigger] s[i]).0@ == k;
                assert(i < s.len() - 1);
                assert(t[i].0@ == k);
            }
        }
    }
}

/// Removing the entry at `i` and appending an entry with the same key
/// leaves every other key's value alone and keeps the keys duplicate-free.
proof fn lemma_replace_at_back<V>(s: Seq<(String, V)>, i: int, e: (String, V))
    requires
        0 <= i < s.len(),
        keys_distinct(s),
        e.0@ == s[i].0@,
    ensures
        keys_distinct(s.remove(i).push(e)),
        assoc_lookup(s.remove(i).push(e), e.0@) == Some(e.1),
        forall|k: Seq<char>|
            k != e.0@ ==> #[trigger] assoc_lookup(s.remove(i).push(e), k) == assoc_lookup(s, k),
{
    let t = s.remove(i).push(e);
    s.remove_ensures(i);
    assert(t.len() == s.len());
    // Index map: t[p] == s[p] for p < i, t[p] == s[p + 1] for i <= p < len - 1,
    // and the appended entry stands last.
    assert(forall|p: int| 0 <= p < i ==> t[p] == s[p]);
    assert(forall|p: int| i <= p < s.len() - 1 ==> t[p] == s[p + 1]);
    assert(t[s.len() - 1] == e);
    assert forall|p: int, q: int| 0 <= p < q < t.len() implies (#[trigger] t[p]).0@
        != (#[trigger] t[q]).0@ by {
        let sp: int = if p < i { p } else { p + 1 };
        if q < t.len() - 1 {
            let sq: int = if q < i { q } else { q + 1 };
            assert(t[p] == s[sp] && t[q] == s[sq]);
        } else {
            assert(t[q].0@ == s[i].0@);
            assert(sp != i);
        }
    }
    assert(t.last() == e);
    assert(assoc_lookup(t, e.0@) == Some(e.1));
    assert forall|k: Seq<char>| k != e.0@ implies #[trigger] assoc_lookup(t, k) == assoc_lookup(
        s,
        k,
    ) by {
        lemma_assoc_lookup(s, k);
        lemma_assoc_lookup(t, k);
        if exists|j: int| 0 <= j < s.len() && (#[trigger] s[j]).0@ == k {
            let j = choose|j: int| 0 <= j < s.len() && (#[trigger] s[j]).0@ == k;
            assert(j != i);
            let j2: int = if j < i { j } else { j - 1 };
            assert(t[j2] == s[j]);
            assert(assoc_lookup(t, k) == Some(t[j2].1));
            assert(assoc_lookup(s, k) == Some(s[j].1));
        } else {
            assert forall|j: int| 0 <= j < t.len() implies (#[trigger] t[j]).0@ != k by {
                if j < t.len() - 1 {
                    let sj: int = if j < i { j } else { j + 1 };
                    assert(t[j] == s[sj]);
                } else {
                    assert(t[j].0@ == s[i].0@);
                }
            }
        }
    }
}

/// Dropping the oldest entry erases exactly its key and keeps the keys
/// duplicate-free.
proof fn lemma_drop_first<V>(s: Seq<(String, V)>)
    requires
        s.len() > 0,
        keys_distinct(s),
    ensures
        keys_distinct(s.drop_first()),
        assoc_lookup(s.drop_first(), s[0].0@) is None,
        forall|k: Seq<char>|
            k != s[0].0@ ==> #[trigger] assoc_lookup(s.drop_first(), k) == assoc_lookup(s, k),
{
    let t = s.drop_first();
    assert(forall|p: int| 0 <= p < t.len() ==> t[p] == s[p + 1]);
    assert forall|p: int, q: int| 0 <= p < q < t.len() implies (#[trigger] t[p]).0@
        != (#[trigger] t[q]).0@ by {
        assert(t[p] == s[p + 1] && t[q] == s[q + 1]);
    }
    lemma_assoc_lookup(t, s[0].0@);
    assert forall|j: int| 0 <= j < t.len() implies (#[trigger] t[j]).0@ != s[0].0@ by {
        assert(t[j] == s[j + 1]);
    }
    assert forall|k: Seq<char>| k != s[0].0@ implies #[trigger] assoc_lookup(t, k) == assoc_lookup(
        s,
        k,
    ) by {
        lemma_assoc_lookup(s, k);
        lemma_assoc_lookup(t, k);
        if exists|j: int| 0 <= j < s.len() && (#[trigger] s[j]).0@ == k {
            let j = choose|j: int| 0 <= j < s.len() && (#[trigger] s[j]).0@ == k;
            assert(j != 0);
            assert(t[j - 1] == s[j]);
            assert(assoc_lookup(t, k) == Some(t[j - 1].1));
            assert(assoc_lookup(s, k) == Some(s[j].1));
        } else {
            assert forall|j: int| 0 <= j < t.len() implies (#[trigger] t[j]).0@ != k by {
                assert(t[j] == s[j + 1]);
            }
        }
    }
}

/// Removing the entry at `i` erases exactly its key and keeps the keys
/// duplicate-free.
proof fn lemma_remove_at<V>(s: Seq<(String, V)>, i: int)
    requires
        0 <= i < s.len(),
        keys_distinct(s),
    ensures
        keys_distinct(s.remove(i)),
        assoc_lookup(s.remove(i), s[i].0@) is None,
        forall|k: Seq<char>|
            k != s[i].0@ ==> #[trigger] assoc_lookup(s.remove(i), k) == assoc_lookup(s, k),
{
    let t = s.remove(i);
    s.remove_ensures(i);
    assert forall|p: int, q: int| 0 <= p < q < t.len() implies (#[trigger] t[p]).0@
        != (#[trigger] t[q]).0@ by {
        let sp: int = if p < i { p } else { p + 1 };
        let sq: int = if q < i { q } else { q + 1 };
        assert(t[p] == s[sp] && t[q] == s[sq]);
    }
    lemma_assoc_lookup(t, s[i].0@);
    assert forall|j: int| 0 <= j < t.len() implies (#[trigger] t[j]).0@ != s[i].0@ by {
        let sj: int = if j < i { j } else { j + 1 };
        assert(t[j] == s[sj]);
    }
    assert forall|k: Seq<char>| k != s[i].0@ implies #[trigger] assoc_lookup(t, k) == assoc_lookup(
        s,
        k,
    ) by {
        lemma_assoc_lookup(s, k);
        lemma_assoc_lookup(t, k);
        if exists|j: int| 0 <= j < s.len() && (#[trigger] s[j]).0@ == k {
            let j = choose|j: int| 0 <= j < s.len() && (#[trigger] s[j]).0@ == k;
            assert(j != i);
            let j2: int = if j < i { j } else { j - 1 };
            assert(t[j2] == s[j]);
            assert(assoc_lookup(t, k) == Some(t[j2].1));
            assert(assoc_lookup(s, k) == Some(s[j].1));
        } else {
            assert forall|j: int| 0 <= j < t.len() implies (#[trigger] t[j]).0@ != k by {
                let sj: int = if j < i { j } else { j + 1 };
                assert(t[j] == s[sj]);
            }
        }
    }
}

/// Appending an entry under a fresh key leaves every other key's value
/// alone and keeps the keys duplicate-free.
proof fn lemma_push_fresh<V>(s: Seq<(String, V)>, e: (String, V))
    requires
        keys_distinct(s),
        forall|i: int| 0 <= i < s.len() ==> (#[trigger] s[i]).0@ != e.0@,
    ensures
        keys_distinct(s.push(e)),
        assoc_lookup(s.push(e), e.0@) == Some(e.1),
        forall|k: Seq<char>|
            k != e.0@ ==> #[trigger] assoc_lookup(s.push(e), k) == assoc_lookup(s, k),
{
    let t = s.push(e);
    assert(forall|p: int| 0 <= p < s.len() ==> t[p] == s[p]);
    assert(t[s.len() as int] == e);
    assert forall|p: int, q: int| 0 <= p < q < t.len() implies (#[trigger] t[p]).0@
        != (#[trigger] t[q]).0@ by {
        if q < t.len() - 1 {
            assert(t[p] == s[p] && t[q] == s[q]);
        } else {
            assert(t[p] == s[p] && t[q] == e);
        }
    }
    assert(t.last() == e);
    assert(t.drop_last() =~= s);
    assert(assoc_lookup(t, e.0@) == Some(e.1));
    assert forall|k: Seq<char>| k != e.0@ implies #[trigger] assoc_lookup(t, k) == assoc_lookup(
        s,
        k,
    ) by {
        assert(assoc_lookup(t, k) == assoc_lookup(t.drop_last(), k));
    }
}

impl<V> LRUCache<V> {
    /// The keys now present, oldest first.  The key at position zero is
    /// the next eviction candidate; the last key was touched most
    /// recently.
    pub closed spec fn order(&self) -> Seq<Seq<char>> {
        self.entries@.map_values(|e: (String, V)| e.0@)
    }

    /// The value stored under `k`, or `None` when `k` is absent.
    pub closed spec fn lookup(&self, k: Seq<char>) -> Option<V> {
        assoc_lookup(self.entries@, k)
    }

    /// Whether a value is stored under `k`.
    pub open spec fn contains_key(&self, k: Seq<char>) -> bool {
        self.order().contains(k)
    }

    /// The capacity fixed at construction.
    pub closed spec fn capacity_spec(&self) -> nat {
        self.capacity as nat
    }

    /// The number of entries now held.
    pub open spec fn len_spec(&self) -> nat {
        self.order().len()
    }

    /// Well-formedness: the capacity is positive, the entry count never
    /// exceeds it, and no key appears twice.
    pub closed spec fn wf(&self) -> bool {
        &&& 1 <= self.capacity
        &&& self.entries@.len() <= self.capacity
        &&& keys_distinct(self.entries@)
    }

    /// A key is present exactly when `lookup` finds a value for it.
    pub proof fn lemma_lookup_present(&self, k: Seq<char>)
        requires
            self.wf(),
        ensures
            (self.lookup(k) is Some) <==> self.contains_key(k),
    {
        lemma_assoc_lookup(self.entries@, k);
        if exists|i: int| 0 <= i < self.entries@.len() && (#[trigger] self.entries@[i]).0@ == k {
            let i = choose|i: int|
                0 <= i < self.entries@.len() && (#[trigger] self.entries@[i]).0@ == k;
            assert(self.order()[i] == k);
        }
        if self.contains_key(k) {
            let i = choose|i: int| 0 <= i < self.order().len() && self.order()[i] == k;
            assert(self.entries@[i].0@ == k);
        }
    }

    /// The visible consequences of well-formedness: the capacity is
    /// positive, the entry count never exceeds it, and no key appears
    /// twice in the recency order.
    pub proof fn lemma_wf_facts(&self)
        requires
            self.wf(),
        ensures
            self.capacity_spec() >= 1,
            self.len_spec() <= self.capacity_spec(),
            forall|i: int, j: int|
                0 <= i < j < self.order().len() ==> (#[trigger] self.order()[i])
                    != (#[trigger] self.order()[j]),
    {
        assert forall|i: int, j: int|
            0 <= i < j < self.order().len() implies (#[trigger] self.order()[i])
            != (#[trigger] self.order()[j]) by {
            assert(self.order()[i] == self.entries@[i].0@);
            assert(self.order()[j] == self.entries@[j].0@);
        }
    }

    /// Creates an empty cache.  A capacity of zero is an invalid
    /// configuration and is rejected.
    pub fn new(capacity: usize) -> (r: Result<Self, CoreError>)
        ensures
            match r {
                Ok(c) => {
                    &&& capacity >= 1
                    &&& c.wf()
                    &&& c.capacity_spec() == capacity
                    &&& c.order() == Seq::<Seq<char>>::empty()
                    &&& forall|k: Seq<char>| c.lookup(k) is None
                },
                Err(e) => capacity == 0 && e == CoreError::InvalidConfig,
            },
    {
        if capacity == 0 {
            Err(CoreError::InvalidConfig)
        } else {
            let c = LRUCache { capacity, entries: Vec::new() };
            proof {
                assert(c.order() =~= Seq::<Seq<char>>::empty());
            }
            Ok(c)
        }
    }

    /// The position of `key` in the recency order, if present.
    fn find_index(&self, key: &String) -> (r: Option<usize>)
        ensures
            match r {
                Some(i) => i < self.order().len() && self.order()[i as int] == key@,
                None => !self.contains_key(key@),
            },
    {
        let n = self.entries.len();
        let mut i: usize = 0;
        while i < n
            invariant
                n == self.entries@.len(),
                i <= n,
                forall|j: int| 0 <= j < i ==> (#[trigger] self.entries@[j]).0@ != key@,
            decreases n - i,
        {
            if self.entries[i].0 == *key {
                proof {
                    assert(self.order()[i as int] == key@);
                }
                return Some(i);
            }
            i += 1;
        }
        proof {
            assert forall|j: int| 0 <= j < self.order().len() implies #[trigger] self.order()[j]
                != key@ by {
                assert(self.order()[j] == self.entries@[j].0@);
            }
        }
        None
    }

    /// Looks a key up.  On a hit the key becomes the most recently used
    /// and a reference to its value is returned; on a miss nothing
    /// changes.
    pub fn get<'a>(&'a mut self, key: &str) -> (r: Option<&'a V>)
        requires
            old(self).wf(),
        ensures
            final(self).wf(),
            final(self).capacity_spec() == old(self).capacity_spec(),
            final(self).len_spec() == old(self).len_spec(),
            match r {
                Some(v) => {
                    &&& old(self).contains_key(key@)
                    &&& old(self).lookup(key@) == Some(*v)
                    &&& final(self).lookup(key@) == Some(*v)
                    &&& exists|i: int|
                        0 <= i < old(self).order().len() && old(self).order()[i] == key@
                            && final(self).order() == old(self).order().remove(i).push(key@)
                },
                None => !old(self).contains_key(key@) && *final(self) == *old(self),
            },
            forall|k2: Seq<char>| final(self).lookup(k2) == old(self).lookup(k2),
            forall|k2: Seq<char>|
                final(self).contains_key(k2) <==> old(self).contains_key(k2),
    {
        let k: String = key.to_owned();
        match self.find_index(&k) {
            Some(i) => {
                let ghost s0 = self.entries@;
                let entry = self.entries.remove(i);
                self.entries.push(entry);
                proof {
                    assert(s0[i as int].0@ == key@);
                    assert(self.entries@ == s0.remove(i as int).push(s0[i as int]));
                    lemma_replace_at_back(s0, i as int, s0[i as int]);
                    lemma_assoc_lookup(s0, key@);
                    assert(assoc_lookup(s0, key@) == Some(s0[i as int].1));
                    assert(self.order() =~= s0.map_values(|e: (String, V)| e.0@).remove(
                        i as int,
                    ).push(key@));
                    assert forall|k2: Seq<char>|
                        self.contains_key(k2) <==> old(self).contains_key(k2) by {
                        self.lemma_lookup_present(k2);
                        old(self).lemma_lookup_present(k2);
                    }
                }
                let n = self.entries.len();
                Some(&self.entries[n - 1].1)
            },
            None => {
                proof {
                    self.lemma_lookup_present(key@);
                }
                None
            },
        }
    }

    /// Stores `value` under `key`.  A key already present has its value
    /// replaced and its recency refreshed without any eviction; a fresh
    /// key entering a full cache evicts the least recently used entry
    /// first.
    pub fn put(&mut self, key: String, value: V)
        requires
            old(self).wf(),
        ensures
            final(self).wf(),
            final(self).capacity_spec() == old(self).capacity_spec(),
            final(self).lookup(key@) == Some(value),
            final(self).contains_key(key@),
            final(self).len_spec() <= old(self).capacity_spec(),
            old(self).contains_key(key@) ==> final(self).len_spec() == old(self).len_spec(),
            old(self).contains_key(key@) ==> exists|i: int|
                0 <= i < old(self).order().len() && old(self).order()[i] == key@
                    && final(self).order() == old(self).order().remove(i).push(key@),
            old(self).contains_key(key@) ==> forall|k2: Seq<char>|
                k2 != key@ ==> final(self).lookup(k2) == old(self).lookup(k2),
            (!old(self).contains_key(key@) && old(self).len_spec() < old(self).capacity_spec())
                ==> final(self).order() == old(self).order().push(key@),
            (!old(self).contains_key(key@) && old(self).len_spec() < old(self).capacity_spec())
                ==> forall|k2: Seq<char>|
                k2 != key@ ==> final(self).lookup(k2) == old(self).lookup(k2),
            (!old(self).contains_key(key@) && old(self).len_spec() == old(self).capacity_spec())
                ==> final(self).order() == old(self).order().drop_first().push(key@),
            (!old(self).contains_key(key@) && old(self).len_spec() == old(self).capacity_spec())
                ==> !final(self).contains_key(old(self).order()[0]) && final(self).lookup(
                old(self).order()[0],
            ) is None,
            (!old(self).contains_key(key@) && old(self).len_spec() == old(self).capacity_spec())
                ==> forall|k2: Seq<char>|
                k2 != key@ && k2 != old(self).order()[0] ==> final(self).lookup(k2)
                    == old(self).lookup(k2),
    {
        let ghost s0 = self.entries@;
        match self.find_index(&key) {
            Some(i) => {
                self.entries.remove(i);
                self.entries.push((key, value));
                proof {
                    let e = (key, value);
                    assert(e.0@ == s0[i as int].0@);
                    lemma_replace_at_back(s0, i as int, e);
                    assert(self.order() =~= s0.map_values(|x: (String, V)| x.0@).remove(
                        i as int,
                    ).push(key@));
                    old(self).lemma_lookup_present(key@);
                }
            },
            None => {
                proof {
                    old(self).lemma_lookup_present(key@);
                    lemma_assoc_lookup(s0, key@);
                }
                if self.entries.len() == self.capacity {
                    let ghost evicted = s0[0].0@;
                    self.entries.remove(0);
                    let ghost s1 = self.entries@;
                    self.entries.push((key, value));
                    proof {
                        assert(s1 == s0.drop_first()) by {
                            assert(s0.remove(0) =~= s0.drop_first());
                        }
                        lemma_drop_first(s0);
                        let e = (key, value);
                        assert forall|j: int| 0 <= j < s1.len() implies (#[trigger] s1[j]).0@
                            != e.0@ by {
                            assert(s1[j] == s0[j + 1]);
                        }
                        lemma_push_fresh(s1, e);
                        assert(self.order() =~= s0.map_values(
                            |x: (String, V)| x.0@,
                        ).drop_first().push(key@));
                        assert(old(self).order()[0] == evicted);
                        assert(assoc_lookup(self.entries@, evicted) == assoc_lookup(s1, evicted));
                        self.lemma_lookup_present(evicted);
                    }
                } else {
                    self.entries.push((key, value));
                    proof {
                        let e = (key, value);
                        assert forall|j: int| 0 <= j < s0.len() implies (#[trigger] s0[j]).0@
                            != e.0@ by {
                            assert(old(self).order()[j] == s0[j].0@);
                        }
                        lemma_push_fresh(s0, e);
                        assert(self.order() =~= s0.map_values(|x: (String, V)| x.0@).push(key@));
                    }
                }
            },
        }
        proof {
            self.lemma_lookup_present(key@);
        }
    }

    /// Removes `key` and returns its value, leaving every other entry
    /// and the rest of the recency order alone.
    pub fn delete(&mut self, key: &str) -> (r: Option<V>)
        requires
            old(self).wf(),
        ensures
            final(self).wf(),
            final(self).capacity_spec() == old(self).capacity_spec(),
            r == old(self).lookup(key@),
            !final(self).contains_key(key@),
            final(self).lookup(key@) is None,
            match r {
                Some(_) => {
                    &&& old(self).contains_key(key@)
                    &&& exists|i: int|
                        0 <= i < old(self).order().len() && old(self).order()[i] == key@
                            && final(self).order() == old(self).order().remove(i)
                },
                None => !old(self).contains_key(key@) && *final(self) == *old(self),
            },
            forall|k2: Seq<char>|
                k2 != key@ ==> final(self).lookup(k2) == old(self).lookup(k2),
    {
        let k: String = key.to_owned();
        match self.find_index(&k) {
            Some(i) => {
                let ghost s0 = self.entries@;
                let entry = self.entries.remove(i);
                proof {
                    lemma_remove_at(s0, i as int);
                    lemma_assoc_lookup(s0, key@);
                    assert(entry == s0[i as int]);
                    assert(assoc_lookup(s0, key@) == Some(s0[i as int].1));
                    assert(self.order() =~= s0.map_values(|e: (String, V)| e.0@).remove(
                        i as int,
                    ));
                    self.lemma_lookup_present(key@);
                }
                Some(entry.1)
            },
            None => {
                proof {
                    self.lemma_lookup_present(key@);
                }
                None
            },
        }
    }

    /// Removes every entry, keeping the capacity.
    pub fn clear(&mut self)
        requires
            old(self).wf(),
        ensures
            final(self).wf(),
            final(self).capacity_spec() == old(self).capacity_spec(),
            final(self).order() == Seq::<Seq<char>>::empty(),
            forall|k: Seq<char>| final(self).lookup(k) is None,
    {
        self.entries.clear();
        proof {
            assert(self.order() =~= Seq::<Seq<char>>::empty());
        }
    }
}

} // verus!

