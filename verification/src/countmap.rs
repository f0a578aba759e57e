use vstd::prelude::*;

verus! {

/// Increment that never wraps: counters stick at the largest representable
/// value instead of overflowing.
pub open spec fn sat_inc(c: u64) -> u64 {
    if c == u64::MAX {
        c
    } else {
        (c + 1) as u64
    }
}

/// The count a map associates with a key, with absent keys read as zero.
pub open spec fn count_in(m: Map<Seq<char>, u64>, k: Seq<char>) -> u64 {
    if m.contains_key(k) {
        m[k]
    } else {
        0
    }
}

/// The finite map described by an association list; a later entry for the
/// same key would win, though well-formed maps never hold one.
pub open spec fn map_of(s: Seq<(String, u64)>) -> Map<Seq<char>, u64>
    decreases s.len(),
{
    if s.len() == 0 {
        Map::empty()
    } else {
        map_of(s.drop_last()).insert(s.last().0@, s.last().1)
    }
}

/// A mapping from textual keys to counts, as used for the two persistent
/// counter tables and for the per-address counter map. Keys are unique.
pub struct CountMap {
    entries: Vec<(String, u64)>,
}

impl View for CountMap {
    type V = Map<Seq<char>, u64>;

    closed spec fn view(&self) -> Map<Seq<char>, u64> {
        map_of(self.entries@)
    }
}

proof fn lemma_map_of_contains(s: Seq<(String, u64)>, k: Seq<char>)
    ensures
        map_of(s).contains_key(k) <==> exists|i: int| 0 <= i < s.len() && s[i].0@ == k,
    decreases s.len(),
{
    if s.len() > 0 {
        let s0 = s.drop_last();
        lemma_map_of_contains(s0, k);
        if s.last().0@ == k {
            assert(s[s.len() - 1].0@ == k);
        } else {
            if map_of(s).contains_key(k) {
                let i = choose|i: int| 0 <= i < s0.len() && s0[i].0@ == k;
                assert(s[i].0@ == k);
            }
            if exists|i: int| 0 <= i < s.len() && s[i].0@ == k {
                let i = choose|i: int| 0 <= i < s.len() && s[i].0@ == k;
                assert(s0[i].0@ == k);
            }
        }
    }
}

proof fn lemma_map_of_value(s: Seq<(String, u64)>, i: int, k: Seq<char>)
    requires
        0 <= i < s.len(),
        s[i].0@ == k,
        forall|j: int| i < j < s.len() ==> s[j].0@ != k,
    ensures
        map_of(s).contains_key(k),
        map_of(s)[k] == s[i].1,
    decreases s.len(),
{
    if i == s.len() - 1 {
    } else {
        let s0 = s.drop_last();
        assert(s0[i] == s[i]);
        lemma_map_of_value(s0, i, k);
        assert(s[s.len() - 1].0@ != k);
    }
}

proof fn lemma_map_of_dom_len(s: Seq<(String, u64)>)
    requires
        forall|i: int, j: int| 0 <= i < j < s.len() ==> s[i].0@ != s[j].0@,
    ensures
        map_of(s).dom().finite(),
        map_of(s).dom().len() == s.len(),
    decreases s.len(),
{
    broadcast use vstd::set::axiom_set_insert_len;

    if s.len() > 0 {
        let s0 = s.drop_last();
        assert(forall|i: int, j: int| 0 <= i < j < s0.len() ==> s0[i].0@ != s0[j].0@);
        lemma_map_of_dom_len(s0);
        lemma_map_of_contains(s0, s.last().0@);
        assert(forall|i: int| 0 <= i < s0.len() ==> s0[i].0@ != s.last().0@);
        assert(!map_of(s0).contains_key(s.last().0@));
        assert(map_of(s).dom() =~= map_of(s0).dom().insert(s.last().0@));
    }
}

proof fn lemma_map_of_update(s: Seq<(String, u64)>, i: int, key: String, v: u64)
    requires
        forall|m: int, j: int| 0 <= m < j < s.len() ==> s[m].0@ != s[j].0@,
        0 <= i < s.len(),
        s[i].0@ == key@,
    ensures
        map_of(s.update(i, (key, v))) == map_of(s).insert(key@, v),
    decreases s.len(),
{
    let t = s.update(i, (key, v));
    if i == s.len() - 1 {
        assert(t.drop_last() =~= s.drop_last());
        assert(t.last() == (key, v));
        assert(map_of(t) == map_of(s.drop_last()).insert(key@, v));
        assert(map_of(s).insert(key@, v) =~= map_of(s.drop_last()).insert(key@, v));
    } else {
        let s0 = s.drop_last();
        assert(s0[i] == s[i]);
        lemma_map_of_update(s0, i, key, v);
        assert(t.drop_last() =~= s0.update(i, (key, v)));
        assert(t.last() == s.last());
        // the updated key differs from the last entry's key
        assert(s[i].0@ != s[s.len() - 1].0@);
        assert(map_of(t) == map_of(s0).insert(key@, v).insert(s.last().0@, s.last().1));
        assert(map_of(s0).insert(key@, v).insert(s.last().0@, s.last().1) =~= map_of(
            s0,
        ).insert(s.last().0@, s.last().1).insert(key@, v));
    }
}

impl CountMap {
    /// Keys are pairwise distinct, so the association list denotes its map
    /// without ambiguity.
    pub closed spec fn wf(self) -> bool {
        forall|i: int, j: int|
            0 <= i < j < self.entries@.len() ==> self.entries@[i].0@ != self.entries@[j].0@
    }

    /// An empty counter map.
    pub fn new() -> (r: CountMap)
        ensures
            r.wf(),
            r@ == Map::<Seq<char>, u64>::empty(),
    {
        CountMap { entries: Vec::new() }
    }

    /// The number of distinct keys held.
    pub fn len(&self) -> (r: usize)
        requires
            self.wf(),
        ensures
            self@.dom().finite(),
            r == self@.dom().len(),
    {
        proof {
            lemma_map_of_dom_len(self.entries@);
        }
        self.entries.len()
    }

    /// The count stored for `key`, or zero when the key is absent.
    pub fn get(&self, key: &String) -> (r: u64)
        requires
            self.wf(),
        ensures
            r == count_in(self@, key@),
    {
        proof {
            lemma_map_of_contains(self.entries@, key@);
        }
        let n = self.entries.len();
        let mut i: usize = 0;
        while i < n
            invariant
                n == self.entries@.len(),
                0 <= i <= n,
                self.wf(),
                forall|j: int| 0 <= j < i ==> self.entries@[j].0@ != key@,
            decreases n - i,
        {
            if self.entries[i].0 == *key {
                proof {
                    assert forall|j: int| i < j < self.entries@.len() implies self.entries@[j].0@
                        != key@ by {
                        assert(self.entries@[i as int].0@ != self.entries@[j].0@);
                    }
                    lemma_map_of_value(self.entries@, i as int, key@);
                }
                return self.entries[i].1;
            }
            i += 1;
        }
        0
    }

    /// Store `value` for `key`, inserting the key or replacing its count.
    pub fn set(&mut self, key: &String, value: u64)
        requires
            old(self).wf(),
        ensures
            final(self).wf(),
            final(self)@ == old(self)@.insert(key@, value),
    {
        let stored = key.clone();
        let n = self.entries.len();
        let mut i: usize = 0;
        while i < n
            invariant
                n == self.entries@.len(),
                0 <= i <= n,
                *self == *old(self),
                self.wf(),
                stored@ == key@,
                forall|j: int| 0 <= j < i ==> self.entries@[j].0@ != key@,
            decreases n - i,
        {
            if self.entries[i].0 == *key {
                proof {
                    let t = self.entries@.update(i as int, (stored, value));
                    assert forall|j: int| 0 <= j < t.len() implies t[j].0@ == self.entries@[
                        j
                    ].0@ by {}
                    assert forall|m: int, j: int| 0 <= m < j < t.len() implies t[m].0@ != t[
                        j
                    ].0@ by {
                        assert(self.entries@[m].0@ != self.entries@[j].0@);
                    }
                    lemma_map_of_update(self.entries@, i as int, stored, value);
                }
                self.entries.set(i, (stored, value));
                return ;
            }
            i += 1;
        }
        proof {
            lemma_map_of_contains(self.entries@, key@);
            let t = self.entries@.push((stored, value));
            assert(t.drop_last() =~= self.entries@);
            assert forall|m: int, j: int| 0 <= m < j < t.len() implies t[m].0@ != t[j].0@ by {
                if j < t.len() - 1 {
                    assert(self.entries@[m].0@ != self.entries@[j].0@);
                } else {
                    assert(t[j].0@ == key@);
                }
            }
        }
        self.entries.push((stored, value));
    }

    /// Add one to the count for `key` (zero when absent), sticking at the
    /// largest representable value.
    pub fn increment(&mut self, key: &String)
        requires
            old(self).wf(),
        ensures
            final(self).wf(),
            final(self)@ == old(self)@.insert(key@, sat_inc(count_in(old(self)@, key@))),
    {
        let c = self.get(key);
        let next: u64 = if c == u64::MAX {
            c
        } else {
            c + 1
        };
        self.set(key, next);
    }

    /// Hand out every (key, count) pair and leave the map empty.
    pub fn take_entries(&mut self) -> (r: Vec<(String, u64)>)
        requires
            old(self).wf(),
        ensures
            final(self).wf(),
            final(self)@ == Map::<Seq<char>, u64>::empty(),
            r@.len() == old(self)@.dom().len(),
            forall|i: int|
                0 <= i < r@.len() ==> old(self)@.contains_key(#[trigger] r@[i].0@) && old(
                    self,
                )@[r@[i].0@] == r@[i].1,
            forall|i: int, j: int| 0 <= i < j < r@.len() ==> r@[i].0@ != r@[j].0@,
            forall|k: Seq<char>|
                old(self)@.contains_key(k) ==> exists|i: int| 0 <= i < r@.len() && r@[i].0@ == k,
    {
        proof {
            lemma_map_of_dom_len(self.entries@);
            assert forall|i: int| 0 <= i < self.entries@.len() implies map_of(
                self.entries@,
            ).contains_key(#[trigger] self.entries@[i].0@) && map_of(self.entries@)[self.entries@[
                i
            ].0@] == self.entries@[i].1 by {
                lemma_map_of_value(self.entries@, i, self.entries@[i].0@);
            }
            assert forall|k: Seq<char>| map_of(self.entries@).contains_key(k) implies exists|i: int|
                0 <= i < self.entries@.len() && self.entries@[i].0@ == k by {
                lemma_map_of_contains(self.entries@, k);
            }
        }
        let mut taken: Vec<(String, u64)> = Vec::new();
        core::mem::swap(&mut taken, &mut self.entries);
        taken
    }
}

} // verus!
