//! Association lists: a sequence of key-value pairs in which no key occurs
//! twice, read as the map from each key to its value.

use vstd::prelude::*;

verus! {

/// No key occurs twice.
pub open spec fn keys_unique<K, V>(v: Seq<(K, V)>) -> bool {
    forall|i: int, j: int| 0 <= i < v.len() && 0 <= j < v.len() && i != j ==> v[i].0 != v[j].0
}

/// Some pair has key `k`.
pub open spec fn has_key<K, V>(v: Seq<(K, V)>, k: K) -> bool {
    exists|i: int| 0 <= i < v.len() && v[i].0 == k
}

/// The map from each key to the value paired with it.
pub open spec fn assoc_map<K, V>(v: Seq<(K, V)>) -> Map<K, V> {
    Map::new(|k: K| has_key(v, k), |k: K| v[choose|i: int| 0 <= i < v.len() && v[i].0 == k].1)
}

pub proof fn lemma_assoc_index<K, V>(v: Seq<(K, V)>, i: int)
    requires
        keys_unique(v),
        0 <= i < v.len(),
    ensures
        assoc_map(v).contains_key(v[i].0),
        assoc_map(v)[v[i].0] == v[i].1,
{
    let k = v[i].0;
    assert(has_key(v, k));
    let j = choose|j: int| 0 <= j < v.len() && v[j].0 == k;
    assert(j == i);
}

pub proof fn lemma_assoc_absent<K, V>(v: Seq<(K, V)>, k: K)
    requires
        forall|i: int| 0 <= i < v.len() ==> v[i].0 != k,
    ensures
        !assoc_map(v).contains_key(k),
{
}

pub proof fn lemma_assoc_empty<K, V>()
    ensures
        keys_unique(Seq::<(K, V)>::empty()),
        assoc_map(Seq::<(K, V)>::empty()) == Map::<K, V>::empty(),
{
    assert(assoc_map(Seq::<(K, V)>::empty()) =~= Map::<K, V>::empty());
}

pub proof fn lemma_assoc_push<K, V>(v: Seq<(K, V)>, k: K, x: V)
    requires
        keys_unique(v),
        !has_key(v, k),
    ensures
        keys_unique(v.push((k, x))),
        assoc_map(v.push((k, x))) == assoc_map(v).insert(k, x),
{
    let w = v.push((k, x));
    assert(keys_unique(w));
    assert forall|a: K| #[trigger] assoc_map(w).contains_key(a) == assoc_map(v).insert(
        k,
        x,
    ).contains_key(a) by {
        if has_key(w, a) {
            let j = choose|j: int| 0 <= j < w.len() && w[j].0 == a;
            if j < v.len() {
                assert(v[j].0 == a);
            }
        }
        if has_key(v, a) {
            let j = choose|j: int| 0 <= j < v.len() && v[j].0 == a;
            assert(w[j].0 == a);
        }
        if a == k {
            assert(w[v.len() as int].0 == a);
        }
    }
    assert forall|a: K| #[trigger] assoc_map(w).contains_key(a) implies assoc_map(w)[a]
        == assoc_map(v).insert(k, x)[a] by {
        let j = choose|j: int| 0 <= j < w.len() && w[j].0 == a;
        lemma_assoc_index(w, j);
        if j < v.len() {
            lemma_assoc_index(v, j);
        }
    }
    assert(assoc_map(w) =~= assoc_map(v).insert(k, x));
}

pub proof fn lemma_assoc_update<K, V>(v: Seq<(K, V)>, i: int, x: V)
    requires
        keys_unique(v),
        0 <= i < v.len(),
    ensures
        keys_unique(v.update(i, (v[i].0, x))),
        assoc_map(v.update(i, (v[i].0, x))) == assoc_map(v).insert(v[i].0, x),
{
    let k = v[i].0;
    let w = v.update(i, (k, x));
    assert(keys_unique(w));
    assert forall|a: K| #[trigger] assoc_map(w).contains_key(a) == assoc_map(v).insert(
        k,
        x,
    ).contains_key(a) by {
        if has_key(w, a) {
            let j = choose|j: int| 0 <= j < w.len() && w[j].0 == a;
            assert(v[j].0 == a);
        }
        if has_key(v, a) {
            let j = choose|j: int| 0 <= j < v.len() && v[j].0 == a;
            assert(w[j].0 == a);
        }
        if a == k {
            assert(w[i].0 == a);
        }
    }
    assert forall|a: K| #[trigger] assoc_map(w).contains_key(a) implies assoc_map(w)[a]
        == assoc_map(v).insert(k, x)[a] by {
        let j = choose|j: int| 0 <= j < w.len() && w[j].0 == a;
        lemma_assoc_index(w, j);
        if j != i {
            lemma_assoc_index(v, j);
        }
    }
    assert(assoc_map(w) =~= assoc_map(v).insert(k, x));
}

pub proof fn lemma_assoc_remove<K, V>(v: Seq<(K, V)>, i: int)
    requires
        keys_unique(v),
        0 <= i < v.len(),
    ensures
        keys_unique(v.remove(i)),
        assoc_map(v.remove(i)) == assoc_map(v).remove(v[i].0),
{
    let k = v[i].0;
    let w = v.remove(i);
    assert forall|p: int, q: int| 0 <= p < w.len() && 0 <= q < w.len() && p != q implies w[p].0
        != w[q].0 by {
        let pp = if p < i { p } else { p + 1 };
        let qq = if q < i { q } else { q + 1 };
        assert(w[p] == v[pp]);
        assert(w[q] == v[qq]);
    }
    assert forall|a: K| #[trigger] assoc_map(w).contains_key(a) == assoc_map(v).remove(
        k,
    ).contains_key(a) by {
        if has_key(w, a) {
            let j = choose|j: int| 0 <= j < w.len() && w[j].0 == a;
            let jj = if j < i { j } else { j + 1 };
            assert(v[jj].0 == a);
            assert(jj != i);
        }
        if has_key(v, a) && a != k {
            let j = choose|j: int| 0 <= j < v.len() && v[j].0 == a;
            assert(j != i);
            let jw = if j < i { j } else { j - 1 };
            assert(w[jw].0 == a);
        }
    }
    assert forall|a: K| #[trigger] assoc_map(w).contains_key(a) implies assoc_map(w)[a]
        == assoc_map(v).remove(k)[a] by {
        let j = choose|j: int| 0 <= j < w.len() && w[j].0 == a;
        let jj = if j < i { j } else { j + 1 };
        lemma_assoc_index(w, j);
        assert(w[j] == v[jj]);
        lemma_assoc_index(v, jj);
    }
    assert(assoc_map(w) =~= assoc_map(v).remove(k));
}

} // verus!
