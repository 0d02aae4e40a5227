//! An ordered map from byte strings to values, kept as a sorted vector.

use crate::assoc;
use crate::order;
use crate::order::{order_keys, KeyOrder};
use vstd::prelude::*;

verus! {

/// Sorted map from byte strings to values.
#[derive(Debug)]
pub struct KeyMap<V: View> {
    entries: Vec<(Vec<u8>, V)>,
}

impl<V: View> KeyMap<V> {
    /// The pairs, in ascending key order.
    pub closed spec fn pairs(&self) -> Seq<(Seq<u8>, V::V)> {
        self.entries@.map_values(|e: (Vec<u8>, V)| (e.0@, e.1@))
    }

    /// The keys ascend strictly.
    pub open spec fn wf(&self) -> bool {
        assoc::sorted_pairs(self.pairs())
    }

    /// The map from keys to values.
    pub open spec fn map(&self) -> Map<Seq<u8>, V::V> {
        assoc::pairs_map(self.pairs())
    }

    /// An empty map.
    pub fn new() -> (m: Self)
        ensures
            m.wf(),
            m.pairs() == Seq::<(Seq<u8>, V::V)>::empty(),
    {
        let m = KeyMap { entries: Vec::new() };
        assert(m.pairs() =~= Seq::<(Seq<u8>, V::V)>::empty());
        m
    }

    /// Number of keys.
    pub fn len(&self) -> (n: usize)
        ensures
            n == self.pairs().len(),
    {
        self.entries.len()
    }

    /// The key of the pair at `i`.
    pub fn key_at(&self, i: usize) -> (k: &Vec<u8>)
        requires
            i < self.pairs().len(),
        ensures
            k@ == self.pairs()[i as int].0,
    {
        &self.entries[i].0
    }

    /// The value of the pair at `i`.
    pub fn value_at(&self, i: usize) -> (v: &V)
        requires
            i < self.pairs().len(),
        ensures
            v@ == self.pairs()[i as int].1,
    {
        &self.entries[i].1
    }

    /// The position of `key`, or the position at which it would be inserted.
    fn position(&self, key: &[u8]) -> (r: (bool, usize))
        requires
            self.wf(),
        ensures
            r.1 <= self.pairs().len(),
            forall|j: int| 0 <= j < r.1 ==> order::key_less((#[trigger] self.pairs()[j]).0, key@),
            r.0 ==> r.1 < self.pairs().len() && self.pairs()[r.1 as int].0 == key@,
            !r.0 ==> forall|j: int|
                r.1 <= j < self.pairs().len() ==> order::key_less(key@, (#[trigger] self.pairs()[j]).0),
            r.0 == assoc::has_key(self.pairs(), key@),
    {
        let mut lo: usize = 0;
        let mut hi: usize = self.entries.len();
        while lo < hi
            invariant
                self.wf(),
                lo <= hi <= self.pairs().len(),
                self.pairs().len() == self.entries@.len(),
                forall|j: int| 0 <= j < lo ==> order::key_less((#[trigger] self.pairs()[j]).0, key@),
                forall|j: int|
                    hi <= j < self.pairs().len() ==> order::key_less(key@, (#[trigger] self.pairs()[j]).0),
            decreases hi - lo,
        {
            let mid: usize = lo + (hi - lo) / 2;
            let ghost m = mid as int;
            match order_keys(self.entries[mid].0.as_slice(), key) {
                KeyOrder::Before => {
                    proof {
                        assert forall|j: int| 0 <= j < mid + 1 implies order::key_less(
                            (#[trigger] self.pairs()[j]).0,
                            key@,
                        ) by {
                            if j < mid {
                                order::lemma_key_transitive(self.pairs()[j].0, self.pairs()[m].0, key@);
                            }
                        }
                    }
                    lo = mid + 1;
                },
                KeyOrder::Same => {
                    assert(self.pairs()[m].0 == key@);
                    return (true, mid);
                },
                KeyOrder::After => {
                    proof {
                        assert forall|j: int| mid <= j < self.pairs().len() implies order::key_less(
                            key@,
                            (#[trigger] self.pairs()[j]).0,
                        ) by {
                            if mid < j {
                                order::lemma_key_transitive(key@, self.pairs()[m].0, self.pairs()[j].0);
                            }
                        }
                    }
                    hi = mid;
                },
            }
        }
        proof {
            assoc::lemma_absent_at(self.pairs(), lo as int, key@);
        }
        (false, lo)
    }

    /// The value for `key`.
    pub fn get(&self, key: &[u8]) -> (r: Option<&V>)
        requires
            self.wf(),
        ensures
            r matches Some(v) ==> assoc::find(self.pairs(), key@) == Some(v@),
            r is None ==> assoc::find(self.pairs(), key@) is None,
    {
        let (found, i) = self.position(key);
        if found {
            proof {
                assoc::lemma_find_at(self.pairs(), i as int);
            }
            Some(&self.entries[i].1)
        } else {
            None
        }
    }

    /// True if `key` has a value.
    pub fn contains(&self, key: &[u8]) -> (r: bool)
        requires
            self.wf(),
        ensures
            r == assoc::has_key(self.pairs(), key@),
    {
        let (found, _i) = self.position(key);
        found
    }

    /// Sets the value for `key`; returns the one it replaces.
    pub fn insert(&mut self, key: Vec<u8>, value: V) -> (r: Option<V>)
        requires
            old(self).wf(),
        ensures
            final(self).wf(),
            r matches Some(v) ==> assoc::find(old(self).pairs(), key@) == Some(v@),
            r is None ==> assoc::find(old(self).pairs(), key@) is None,
            forall|k: Seq<u8>| #[trigger]
                assoc::find(final(self).pairs(), k) == (if k == key@ {
                    Some(value@)
                } else {
                    assoc::find(old(self).pairs(), k)
                }),
            assoc::is_set(old(self).pairs(), key@, value@, final(self).pairs()),
    {
        let (found, i) = self.position(key.as_slice());
        let ghost s = self.pairs();
        let ghost at = i as int;
        if found {
            let mut slot = value;
            std::mem::swap(&mut self.entries[i].1, &mut slot);
            proof {
                let t = self.pairs();
                assert(t =~= s.update(at, (key@, value@)));
                assert(assoc::sorted_pairs(t));
                assoc::lemma_find_at(s, at);
                assert forall|k: Seq<u8>| #[trigger] assoc::find(t, k) == (if k == key@ {
                    Some(value@)
                } else {
                    assoc::find(s, k)
                }) by {
                    if k == key@ {
                        assoc::lemma_find_at(t, at);
                    } else if assoc::has_key(s, k) {
                        let j = choose|j: int| 0 <= j < s.len() && (#[trigger] s[j]).0 == k;
                        assoc::lemma_find_at(s, j);
                        assert(t[j] == s[j]);
                        assoc::lemma_find_at(t, j);
                    } else if assoc::has_key(t, k) {
                        let j = choose|j: int| 0 <= j < t.len() && (#[trigger] t[j]).0 == k;
                        assert(s[j].0 == k);
                    }
                }
            }
            Some(slot)
        } else {
            let ghost kv = key@;
            let ghost vv = value@;
            self.entries.insert(i, (key, value));
            proof {
                let t = self.pairs();
                assert(t =~= s.insert(at, (kv, vv)));
                lemma_pairs_insert(s, at, kv, vv);
            }
            None
        }
    }

    /// Removes `key`; returns its value.
    pub fn remove(&mut self, key: &[u8]) -> (r: Option<V>)
        requires
            old(self).wf(),
        ensures
            final(self).wf(),
            r matches Some(v) ==> assoc::find(old(self).pairs(), key@) == Some(v@),
            r is None ==> assoc::find(old(self).pairs(), key@) is None,
            forall|k: Seq<u8>| #[trigger]
                assoc::find(final(self).pairs(), k) == (if k == key@ {
                    None
                } else {
                    assoc::find(old(self).pairs(), k)
                }),
    {
        let (found, i) = self.position(key);
        let ghost s = self.pairs();
        let ghost at = i as int;
        if found {
            let e = self.entries.remove(i);
            proof {
                let t = self.pairs();
                assert(t =~= s.remove(at));
                assoc::lemma_find_at(s, at);
                lemma_pairs_remove(s, at);
            }
            Some(e.1)
        } else {
            None
        }
    }
}

/// Inserting a key at its place keeps the order and adds that key only.
proof fn lemma_pairs_insert<V>(s: Seq<(Seq<u8>, V)>, at: int, key: Seq<u8>, value: V)
    requires
        assoc::sorted_pairs(s),
        0 <= at <= s.len(),
        forall|j: int| 0 <= j < at ==> order::key_less((#[trigger] s[j]).0, key),
        forall|j: int| at <= j < s.len() ==> order::key_less(key, (#[trigger] s[j]).0),
    ensures
        assoc::sorted_pairs(s.insert(at, (key, value))),
        forall|k: Seq<u8>| #[trigger]
            assoc::find(s.insert(at, (key, value)), k) == (if k == key {
                Some(value)
            } else {
                assoc::find(s, k)
            }),
{
    let t = s.insert(at, (key, value));
    assert forall|i: int, j: int| 0 <= i < j < t.len() implies order::key_less(
        #[trigger] t[i].0,
        #[trigger] t[j].0,
    ) by {
        let a = if i < at { i } else { i - 1 };
        let b = if j < at { j } else { j - 1 };
        if i != at {
            assert(t[i] == s[a]);
        }
        if j != at {
            assert(t[j] == s[b]);
        }
    }
    assert forall|k: Seq<u8>| #[trigger] assoc::find(t, k) == (if k == key {
        Some(value)
    } else {
        assoc::find(s, k)
    }) by {
        if k == key {
            assoc::lemma_find_at(t, at);
        } else if assoc::has_key(s, k) {
            let j = choose|j: int| 0 <= j < s.len() && (#[trigger] s[j]).0 == k;
            assoc::lemma_find_at(s, j);
            let b = if j < at { j } else { j + 1 };
            assert(t[b] == s[j]);
            assoc::lemma_find_at(t, b);
        } else if assoc::has_key(t, k) {
            let j = choose|j: int| 0 <= j < t.len() && (#[trigger] t[j]).0 == k;
            let b = if j < at { j } else { j - 1 };
            assert(s[b].0 == k);
        }
    }
}

/// Removing a pair keeps the order and forgets its key only.
proof fn lemma_pairs_remove<V>(s: Seq<(Seq<u8>, V)>, at: int)
    requires
        assoc::sorted_pairs(s),
        0 <= at < s.len(),
    ensures
        assoc::sorted_pairs(s.remove(at)),
        forall|k: Seq<u8>| #[trigger]
            assoc::find(s.remove(at), k) == (if k == s[at].0 {
                None
            } else {
                assoc::find(s, k)
            }),
{
    let t = s.remove(at);
    let key = s[at].0;
    assert forall|i: int, j: int| 0 <= i < j < t.len() implies order::key_less(
        #[trigger] t[i].0,
        #[trigger] t[j].0,
    ) by {
        let a = if i < at { i } else { i + 1 };
        let b = if j < at { j } else { j + 1 };
        assert(t[i] == s[a]);
        assert(t[j] == s[b]);
    }
    assert forall|k: Seq<u8>| #[trigger] assoc::find(t, k) == (if k == key {
        None
    } else {
        assoc::find(s, k)
    }) by {
        if assoc::has_key(t, k) {
            let j = choose|j: int| 0 <= j < t.len() && (#[trigger] t[j]).0 == k;
            let b = if j < at { j } else { j + 1 };
            assert(t[j] == s[b]);
            assoc::lemma_find_at(t, j);
            assoc::lemma_find_at(s, b);
            order::lemma_key_irreflexive(k);
            if b < at {
                assert(order::key_less(s[b].0, s[at].0));
            } else {
                assert(order::key_less(s[at].0, s[b].0));
            }
        } else if assoc::has_key(s, k) {
            let j = choose|j: int| 0 <= j < s.len() && (#[trigger] s[j]).0 == k;
            if j != at {
                let b = if j < at { j } else { j - 1 };
                assert(t[b].0 == k);
            }
        }
    }
}

} // verus!
