//! Sequences of key-value pairs in ascending key order.

use crate::order;
use vstd::prelude::*;

verus! {

/// The keys ascend strictly, so none occurs twice.
pub open spec fn sorted_pairs<V>(s: Seq<(Seq<u8>, V)>) -> bool {
    forall|i: int, j: int|
        0 <= i < j < s.len() ==> order::key_less(#[trigger] s[i].0, #[trigger] s[j].0)
}

/// Some pair of `s` has the key `k`.
pub open spec fn has_key<V>(s: Seq<(Seq<u8>, V)>, k: Seq<u8>) -> bool {
    exists|i: int| 0 <= i < s.len() && (#[trigger] s[i]).0 == k
}

/// The value that `s` holds for `k`.
pub open spec fn find<V>(s: Seq<(Seq<u8>, V)>, k: Seq<u8>) -> Option<V> {
    if has_key(s, k) {
        Some(s[choose|i: int| 0 <= i < s.len() && (#[trigger] s[i]).0 == k].1)
    } else {
        None
    }
}

/// The pairs of `s` as a map.
pub open spec fn pairs_map<V>(s: Seq<(Seq<u8>, V)>) -> Map<Seq<u8>, V> {
    Map::new(|k: Seq<u8>| has_key(s, k), |k: Seq<u8>| find(s, k)->0)
}

/// `t` is `s` with the value for `k` set to `v`, in place or at a new place.
pub open spec fn is_set<V>(s: Seq<(Seq<u8>, V)>, k: Seq<u8>, v: V, t: Seq<(Seq<u8>, V)>) -> bool {
    if has_key(s, k) {
        exists|at: int| 0 <= at < s.len() && s[at].0 == k && t == #[trigger] s.update(at, (k, v))
    } else {
        exists|at: int| 0 <= at <= s.len() && t == #[trigger] s.insert(at, (k, v))
    }
}

/// In a sorted sequence the pair at `i` is the one found for its key.
pub proof fn lemma_find_at<V>(s: Seq<(Seq<u8>, V)>, i: int)
    requires
        sorted_pairs(s),
        0 <= i < s.len(),
    ensures
        has_key(s, s[i].0),
        find(s, s[i].0) == Some(s[i].1),
{
    let k = s[i].0;
    assert(s[i].0 == k);
    let c = choose|c: int| 0 <= c < s.len() && (#[trigger] s[c]).0 == k;
    order::lemma_key_irreflexive(k);
    if c < i {
        assert(order::key_less(s[c].0, s[i].0));
    } else if i < c {
        assert(order::key_less(s[i].0, s[c].0));
    }
}

/// A key that lies between two neighbours of a sorted sequence is not in it.
pub proof fn lemma_absent_at<V>(s: Seq<(Seq<u8>, V)>, i: int, k: Seq<u8>)
    requires
        sorted_pairs(s),
        0 <= i <= s.len(),
        forall|j: int| 0 <= j < i ==> order::key_less((#[trigger] s[j]).0, k),
        forall|j: int| i <= j < s.len() ==> order::key_less(k, (#[trigger] s[j]).0),
    ensures
        !has_key(s, k),
{
    order::lemma_key_irreflexive(k);
}

/// Two sorted sequences that hold the same value for every key are equal.
pub proof fn lemma_sorted_unique<V>(a: Seq<(Seq<u8>, V)>, b: Seq<(Seq<u8>, V)>)
    requires
        sorted_pairs(a),
        sorted_pairs(b),
        forall|k: Seq<u8>| #[trigger] find(a, k) == find(b, k),
    ensures
        a == b,
    decreases a.len(),
{
    if a.len() == 0 {
        if b.len() > 0 {
            lemma_find_at(b, 0);
            assert(find(a, b[0].0) == find(b, b[0].0));
        }
        assert(a =~= b);
    } else {
        lemma_find_at(a, a.len() - 1);
        assert(find(a, a.last().0) == find(b, a.last().0));
        assert(b.len() > 0);
        lemma_find_at(b, b.len() - 1);
        assert(find(a, b.last().0) == find(b, b.last().0));
        let i = choose|i: int| 0 <= i < a.len() && (#[trigger] a[i]).0 == b.last().0;
        let j = choose|j: int| 0 <= j < b.len() && (#[trigger] b[j]).0 == a.last().0;
        order::lemma_key_total(a.last().0, b.last().0);
        order::lemma_key_irreflexive(a.last().0);
        order::lemma_key_irreflexive(b.last().0);
        if i < a.len() - 1 {
            assert(order::key_less(a[i].0, a[a.len() - 1].0));
        }
        if j < b.len() - 1 {
            assert(order::key_less(b[j].0, b[b.len() - 1].0));
        }
        assert(a.last() == b.last());
        let x = a.drop_last();
        let y = b.drop_last();
        assert(sorted_pairs(x));
        assert(sorted_pairs(y));
        assert forall|k: Seq<u8>| #[trigger] find(x, k) == find(y, k) by {
            lemma_find_drop_last(a, k);
            lemma_find_drop_last(b, k);
            assert(find(a, k) == find(b, k));
        }
        lemma_sorted_unique(x, y);
        assert(a =~= x.push(a.last()));
        assert(b =~= y.push(b.last()));
    }
}

/// Dropping the last pair of a sorted sequence forgets its key only.
pub proof fn lemma_find_drop_last<V>(s: Seq<(Seq<u8>, V)>, k: Seq<u8>)
    requires
        sorted_pairs(s),
        s.len() > 0,
    ensures
        sorted_pairs(s.drop_last()),
        find(s.drop_last(), k) == (if k == s.last().0 {
            None
        } else {
            find(s, k)
        }),
{
    let x = s.drop_last();
    assert(sorted_pairs(x));
    if has_key(x, k) {
        let i = choose|i: int| 0 <= i < x.len() && (#[trigger] x[i]).0 == k;
        assert(s[i].0 == k);
        lemma_find_at(s, i);
        lemma_find_at(x, i);
        order::lemma_key_irreflexive(k);
        assert(order::key_less(s[i].0, s[s.len() - 1].0));
    } else if has_key(s, k) {
        let i = choose|i: int| 0 <= i < s.len() && (#[trigger] s[i]).0 == k;
        if i < s.len() - 1 {
            assert(x[i].0 == k);
        }
    }
}

/// Appending a pair with a larger key adds that key only.
pub proof fn lemma_find_push<V>(s: Seq<(Seq<u8>, V)>, p: (Seq<u8>, V), k: Seq<u8>)
    requires
        sorted_pairs(s),
        s.len() > 0 ==> order::key_less(s.last().0, p.0),
    ensures
        sorted_pairs(s.push(p)),
        find(s.push(p), k) == (if k == p.0 {
            Some(p.1)
        } else {
            find(s, k)
        }),
{
    let t = s.push(p);
    assert forall|i: int, j: int| 0 <= i < j < t.len() implies order::key_less(
        #[trigger] t[i].0,
        #[trigger] t[j].0,
    ) by {
        if j == s.len() && i < s.len() - 1 {
            order::lemma_key_transitive(s[i].0, s.last().0, p.0);
        }
    }
    assert(t.drop_last() =~= s);
    lemma_find_drop_last(t, k);
    lemma_find_at(t, t.len() - 1);
}

} // verus!
