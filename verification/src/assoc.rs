//! Association lists: vectors of key/value pairs in which no key occurs
//! twice, read as finite maps.

use vstd::prelude::*;

verus! {

/// No key occurs twice.
pub open spec fn keys_unique<K, V>(s: Seq<(K, V)>) -> bool {
    forall|i: int, j: int| 0 <= i < j < s.len() ==> #[trigger] s[i].0 != #[trigger] s[j].0
}

/// Whether `k` is the key of some pair.
pub open spec fn has_key<K, V>(s: Seq<(K, V)>, k: K) -> bool {
    exists|i: int| 0 <= i < s.len() && #[trigger] s[i].0 == k
}

/// The map the pairs stand for.
pub open spec fn assoc_map<K, V>(s: Seq<(K, V)>) -> Map<K, V> {
    Map::new(
        |k: K| has_key(s, k),
        |k: K| s[choose|i: int| 0 <= i < s.len() && #[trigger] s[i].0 == k].1,
    )
}

/// A pair's value is what the map gives for its key.
pub proof fn lemma_assoc_index<K, V>(s: Seq<(K, V)>, i: int)
    requires
        keys_unique(s),
        0 <= i < s.len(),
    ensures
        assoc_map(s).contains_key(s[i].0),
        assoc_map(s)[s[i].0] == s[i].1,
{
    let k = s[i].0;
    assert(has_key(s, k));
    let j = choose|j: int| 0 <= j < s.len() && #[trigger] s[j].0 == k;
    assert(j == i);
}

/// Appending a pair with a new key inserts it into the map.
pub proof fn lemma_assoc_push<K, V>(s: Seq<(K, V)>, k: K, v: V)
    requires
        keys_unique(s),
        !has_key(s, k),
    ensures
        keys_unique(s.push((k, v))),
        assoc_map(s.push((k, v))) == assoc_map(s).insert(k, v),
{
    let t = s.push((k, v));
    assert forall|i: int, j: int| 0 <= i < j < t.len() implies #[trigger] t[i].0 != #[trigger] t[j].0 by {
        if j == s.len() {
            assert(s[i].0 == t[i].0);
        } else {
            assert(t[i] == s[i] && t[j] == s[j]);
        }
    }
    assert forall|x: K| #[trigger] assoc_map(t).contains_key(x) == assoc_map(s).insert(k, v).contains_key(x) by {
        if has_key(s, x) {
            let i = choose|i: int| 0 <= i < s.len() && #[trigger] s[i].0 == x;
            assert(t[i].0 == x);
        }
        if has_key(t, x) && x != k {
            let i = choose|i: int| 0 <= i < t.len() && #[trigger] t[i].0 == x;
            assert(s[i].0 == x);
        }
        if x == k {
            assert(t[s.len() as int].0 == k);
        }
    }
    assert forall|x: K| #[trigger] assoc_map(t).contains_key(x) implies assoc_map(t)[x] == assoc_map(s).insert(k, v)[x] by {
        if x == k {
            lemma_assoc_index(t, s.len() as int);
        } else {
            let i = choose|i: int| 0 <= i < t.len() && #[trigger] t[i].0 == x;
            lemma_assoc_index(t, i);
            lemma_assoc_index(s, i);
        }
    }
    assert(assoc_map(t) =~= assoc_map(s).insert(k, v));
}

/// Replacing the value of a pair updates its key in the map.
pub proof fn lemma_assoc_update<K, V>(s: Seq<(K, V)>, i: int, v: V)
    requires
        keys_unique(s),
        0 <= i < s.len(),
    ensures
        keys_unique(s.update(i, (s[i].0, v))),
        assoc_map(s.update(i, (s[i].0, v))) == assoc_map(s).insert(s[i].0, v),
{
    let k = s[i].0;
    let t = s.update(i, (k, v));
    assert forall|a: int, b: int| 0 <= a < b < t.len() implies #[trigger] t[a].0 != #[trigger] t[b].0 by {
        assert(t[a].0 == s[a].0 && t[b].0 == s[b].0);
    }
    assert forall|x: K| #[trigger] assoc_map(t).contains_key(x) == assoc_map(s).insert(k, v).contains_key(x) by {
        if has_key(s, x) {
            let j = choose|j: int| 0 <= j < s.len() && #[trigger] s[j].0 == x;
            assert(t[j].0 == x);
        }
        if has_key(t, x) {
            let j = choose|j: int| 0 <= j < t.len() && #[trigger] t[j].0 == x;
            assert(s[j].0 == x);
        }
    }
    assert forall|x: K| #[trigger] assoc_map(t).contains_key(x) implies assoc_map(t)[x] == assoc_map(s).insert(k, v)[x] by {
        let j = choose|j: int| 0 <= j < t.len() && #[trigger] t[j].0 == x;
        lemma_assoc_index(t, j);
        if j != i {
            lemma_assoc_index(s, j);
        }
    }
    assert(assoc_map(t) =~= assoc_map(s).insert(k, v));
}

/// Removing a pair removes its key from the map.
pub proof fn lemma_assoc_remove<K, V>(s: Seq<(K, V)>, i: int)
    requires
        keys_unique(s),
        0 <= i < s.len(),
    ensures
        keys_unique(s.remove(i)),
        assoc_map(s.remove(i)) == assoc_map(s).remove(s[i].0),
{
    let k = s[i].0;
    let t = s.remove(i);
    assert forall|a: int, b: int| 0 <= a < b < t.len() implies #[trigger] t[a].0 != #[trigger] t[b].0 by {
        let a2 = if a < i { a } else { a + 1 };
        let b2 = if b < i { b } else { b + 1 };
        assert(t[a] == s[a2] && t[b] == s[b2]);
    }
    assert forall|x: K| #[trigger] assoc_map(t).contains_key(x) == assoc_map(s).remove(k).contains_key(x) by {
        if has_key(s, x) && x != k {
            let j = choose|j: int| 0 <= j < s.len() && #[trigger] s[j].0 == x;
            assert(j != i);
            if j < i {
                assert(t[j].0 == x);
            } else {
                assert(t[j - 1].0 == x);
            }
        }
        if has_key(t, x) {
            let j = choose|j: int| 0 <= j < t.len() && #[trigger] t[j].0 == x;
            let j2 = if j < i { j } else { j + 1 };
            assert(s[j2].0 == x);
            assert(j2 != i);
        }
    }
    assert forall|x: K| #[trigger] assoc_map(t).contains_key(x) implies assoc_map(t)[x] == assoc_map(s).remove(k)[x] by {
        let j = choose|j: int| 0 <= j < t.len() && #[trigger] t[j].0 == x;
        let j2 = if j < i { j } else { j + 1 };
        assert(t[j] == s[j2]);
        lemma_assoc_index(t, j);
        lemma_assoc_index(s, j2);
    }
    assert(assoc_map(t) =~= assoc_map(s).remove(k));
}

/// Mapping the values commutes with removing a key.
pub proof fn lemma_map_values_remove<K, V, W>(m: Map<K, V>, k: K, f: spec_fn(V) -> W)
    ensures
        m.remove(k).map_values(f) == m.map_values(f).remove(k),
{
    assert(m.remove(k).map_values(f) =~= m.map_values(f).remove(k));
}

/// Mapping the values commutes with inserting a pair.
pub proof fn lemma_map_values_insert<K, V, W>(m: Map<K, V>, k: K, v: V, f: spec_fn(V) -> W)
    ensures
        m.insert(k, v).map_values(f) == m.map_values(f).insert(k, f(v)),
{
    assert(m.insert(k, v).map_values(f) =~= m.map_values(f).insert(k, f(v)));
}

/// The empty list stands for the empty map.
pub proof fn lemma_assoc_empty<K, V>()
    ensures
        keys_unique(Seq::<(K, V)>::empty()),
        assoc_map(Seq::<(K, V)>::empty()) == Map::<K, V>::empty(),
{
    assert(assoc_map(Seq::<(K, V)>::empty()) =~= Map::<K, V>::empty());
}

} // verus!
