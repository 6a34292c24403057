//! Association lists with unique keys: the spec-level lookup used for the
//! per-item style overrides and the per-line statistics map.

use vstd::prelude::*;

verus! {

/// The value at `key` in the association list `m`: the first pair whose
/// key matches, if any.
pub open spec fn assoc_lookup<K, V>(m: Seq<(K, V)>, key: K) -> Option<V>
    decreases m.len(),
{
    if m.len() == 0 {
        None
    } else if m[0].0 == key {
        Some(m[0].1)
    } else {
        assoc_lookup(m.skip(1), key)
    }
}

/// No two pairs of `m` share a key.
pub open spec fn assoc_unique<K, V>(m: Seq<(K, V)>) -> bool {
    forall|i: int, j: int| 0 <= i < j < m.len() ==> (#[trigger] m[i]).0 != (#[trigger] m[j]).0
}

/// Looking up the key of the pair at position `k` finds that pair's value,
/// when no earlier pair shares the key.
pub proof fn lemma_assoc_lookup_at<K, V>(m: Seq<(K, V)>, k: int)
    requires
        0 <= k < m.len(),
        forall|j: int| 0 <= j < k ==> (#[trigger] m[j]).0 != m[k].0,
    ensures
        assoc_lookup(m, m[k].0) == Some(m[k].1),
    decreases k,
{
    if k > 0 {
        let tail = m.skip(1);
        assert(forall|j: int| 0 <= j < k - 1 ==> (#[trigger] tail[j]).0 == m[j + 1].0);
        lemma_assoc_lookup_at(tail, k - 1);
    }
}

/// A key under which no pair stands is not found.
pub proof fn lemma_assoc_lookup_none<K, V>(m: Seq<(K, V)>, key: K)
    requires
        forall|j: int| 0 <= j < m.len() ==> (#[trigger] m[j]).0 != key,
    ensures
        assoc_lookup(m, key) is None,
    decreases m.len(),
{
    if m.len() > 0 {
        let tail = m.skip(1);
        assert(forall|j: int| 0 <= j < tail.len() ==> (#[trigger] tail[j]).0 == m[j + 1].0);
        lemma_assoc_lookup_none(tail, key);
    }
}

/// Replacing the value of the pair at position `k` changes the lookup of
/// that pair's key and of no other key.
pub proof fn lemma_assoc_update<K, V>(m: Seq<(K, V)>, k: int, val: V)
    requires
        0 <= k < m.len(),
        assoc_unique(m),
    ensures
        assoc_unique(m.update(k, (m[k].0, val))),
        assoc_lookup(m.update(k, (m[k].0, val)), m[k].0) == Some(val),
        forall|q: K| q != (m[k].0) ==> assoc_lookup(m.update(k, (m[k].0, val)), q) == assoc_lookup(
            m,
            q,
        ),
    decreases m.len(),
{
    let m2 = m.update(k, (m[k].0, val));
    assert(forall|i: int| 0 <= i < m.len() && i != k ==> m2[i] == m[i]);
    if k == 0 {
        assert(m2[0].0 == m[0].0);
        assert(m2.skip(1) =~= m.skip(1));
        assert forall|q: K| q != (m[k].0) implies assoc_lookup(m2, q) == assoc_lookup(m, q) by {
            assert(assoc_lookup(m2, q) == assoc_lookup(m2.skip(1), q));
            assert(assoc_lookup(m, q) == assoc_lookup(m.skip(1), q));
        }
    } else {
        let tail = m.skip(1);
        assert(forall|i: int| 0 <= i < tail.len() ==> #[trigger] tail[i] == m[i + 1]);
        assert(forall|i: int, j: int|
            0 <= i < j < tail.len() ==> (#[trigger] tail[i]).0 != (#[trigger] tail[j]).0);
        lemma_assoc_update(tail, k - 1, val);
        let t2 = tail.update(k - 1, (m[k].0, val));
        assert(m2.skip(1) =~= t2);
        assert(m2[0] == m[0]);
        assert(m[0].0 != m[k].0);
        assert(assoc_lookup(m2, m[k].0) == assoc_lookup(t2, tail[k - 1].0));
        assert forall|q: K| q != (m[k].0) implies assoc_lookup(m2, q) == assoc_lookup(m, q) by {
            if q == m[0].0 {
                assert(assoc_lookup(m2, q) == Some(m2[0].1));
                assert(assoc_lookup(m, q) == Some(m[0].1));
            } else {
                assert(assoc_lookup(m2, q) == assoc_lookup(t2, q));
                assert(assoc_lookup(m, q) == assoc_lookup(tail, q));
            }
        }
    }
}

/// Appending a pair under a fresh key adds exactly that binding.
pub proof fn lemma_assoc_push<K, V>(m: Seq<(K, V)>, key: K, val: V)
    requires
        assoc_unique(m),
        forall|j: int| 0 <= j < m.len() ==> (#[trigger] m[j]).0 != key,
    ensures
        assoc_unique(m.push((key, val))),
        assoc_lookup(m.push((key, val)), key) == Some(val),
        forall|q: K| q != key ==> assoc_lookup(m.push((key, val)), q) == assoc_lookup(m, q),
    decreases m.len(),
{
    let m2 = m.push((key, val));
    assert(forall|i: int| 0 <= i < m.len() ==> #[trigger] m2[i] == m[i]);
    assert(m2[m.len() as int] == (key, val));
    if m.len() == 0 {
        assert(m2.skip(1) =~= Seq::<(K, V)>::empty());
        assert forall|q: K| q != key implies assoc_lookup(m2, q) == assoc_lookup(m, q) by {
            assert(assoc_lookup(m2, q) == assoc_lookup(m2.skip(1), q));
        }
    } else {
        let tail = m.skip(1);
        assert(forall|i: int| 0 <= i < tail.len() ==> #[trigger] tail[i] == m[i + 1]);
        assert(forall|i: int, j: int|
            0 <= i < j < tail.len() ==> (#[trigger] tail[i]).0 != (#[trigger] tail[j]).0);
        assert(forall|j: int| 0 <= j < tail.len() ==> (#[trigger] tail[j]).0 != key);
        lemma_assoc_push(tail, key, val);
        let t2 = tail.push((key, val));
        assert(m2.skip(1) =~= t2);
        assert(assoc_lookup(m2, key) == assoc_lookup(t2, key));
        assert forall|q: K| q != key implies assoc_lookup(m2, q) == assoc_lookup(m, q) by {
            if q == m[0].0 {
                assert(assoc_lookup(m2, q) == Some(m2[0].1));
                assert(assoc_lookup(m, q) == Some(m[0].1));
            } else {
                assert(assoc_lookup(m2, q) == assoc_lookup(t2, q));
                assert(assoc_lookup(m, q) == assoc_lookup(tail, q));
            }
        }
    }
}

/// A key that some pair carries is found.
pub proof fn lemma_assoc_lookup_some<K, V>(m: Seq<(K, V)>, x: int)
    requires
        0 <= x < m.len(),
    ensures
        assoc_lookup(m, m[x].0) is Some,
    decreases x,
{
    if m[0].0 != m[x].0 {
        let tail = m.skip(1);
        assert(forall|q: int| 0 <= q < tail.len() ==> #[trigger] tail[q] == m[q + 1]);
        lemma_assoc_lookup_some(tail, x - 1);
    }
}

} // verus!
