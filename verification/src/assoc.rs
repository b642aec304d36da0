//! Sequences of key-value pairs, read as maps, and counting in sequences.
//!
//! The tables of this library are vectors of pairs in which no key occurs twice.
//! What such a table means is the map from each key to its value.

use vstd::prelude::*;

verus! {

/// Whether no key occurs twice in `s`.
pub open spec fn keys_distinct<K, V>(s: Seq<(K, V)>) -> bool {
    forall|i: int, j: int| 0 <= i < j < s.len() ==> (#[trigger] s[i]).0 != (#[trigger] s[j]).0
}

/// Whether `k` occurs as a key in `s`.
pub open spec fn has_key<K, V>(s: Seq<(K, V)>, k: K) -> bool {
    exists|i: int| 0 <= i < s.len() && (#[trigger] s[i]).0 == k
}

/// A position at which `k` occurs as a key in `s`.
pub open spec fn index_of<K, V>(s: Seq<(K, V)>, k: K) -> int {
    choose|i: int| 0 <= i < s.len() && (#[trigger] s[i]).0 == k
}

/// The map that `s` stands for.
pub open spec fn assoc_map<K, V>(s: Seq<(K, V)>) -> Map<K, V> {
    Map::new(|k: K| has_key(s, k), |k: K| s[index_of(s, k)].1)
}

/// Each pair's key is in the map, with the pair's value.
pub proof fn lemma_assoc_index<K, V>(s: Seq<(K, V)>, i: int)
    requires
        keys_distinct(s),
        0 <= i < s.len(),
    ensures
        assoc_map(s).contains_key(s[i].0),
        assoc_map(s)[s[i].0] == s[i].1,
{
    let k = s[i].0;
    let j = index_of(s, k);
    assert(s[j].0 == s[i].0);
    assert(j == i);
}

/// A key of the map has a pair.
pub proof fn lemma_assoc_witness<K, V>(s: Seq<(K, V)>, k: K) -> (i: int)
    requires
        assoc_map(s).contains_key(k),
    ensures
        0 <= i < s.len(),
        s[i] == (k, assoc_map(s)[k]),
{
    index_of(s, k)
}

/// A key that no pair has is not in the map.
pub proof fn lemma_assoc_absent<K, V>(s: Seq<(K, V)>, k: K)
    requires
        forall|i: int| 0 <= i < s.len() ==> (#[trigger] s[i]).0 != k,
    ensures
        !assoc_map(s).contains_key(k),
{
}

/// Replacing the value of a pair replaces the value of its key.
pub proof fn lemma_assoc_update<K, V>(s: Seq<(K, V)>, i: int, v: V)
    requires
        keys_distinct(s),
        0 <= i < s.len(),
    ensures
        keys_distinct(s.update(i, (s[i].0, v))),
        assoc_map(s.update(i, (s[i].0, v))) == assoc_map(s).insert(s[i].0, v),
{
    let key = s[i].0;
    let t = s.update(i, (key, v));
    assert forall|a: int, b: int| 0 <= a < b < t.len() implies (#[trigger] t[a]).0 != (
    #[trigger] t[b]).0 by {
        assert(t[a].0 == s[a].0 && t[b].0 == s[b].0);
    }
    let m = assoc_map(s).insert(key, v);
    assert forall|k: K| assoc_map(t).contains_key(k) == m.contains_key(k) by {
        if assoc_map(t).contains_key(k) {
            let j = index_of(t, k);
            assert(s[j].0 == k);
        }
        if m.contains_key(k) && k != key {
            let j = index_of(s, k);
            assert(t[j].0 == k);
        }
        if k == key {
            assert(t[i].0 == k);
        }
    }
    assert forall|k: K| m.contains_key(k) implies assoc_map(t)[k] == m[k] by {
        let j = lemma_assoc_witness(t, k);
        if k == key {
            assert(t[i].0 == t[j].0);
            assert(j == i);
        } else {
            assert(j != i);
            assert(s[j] == t[j]);
            lemma_assoc_index(s, j);
        }
    }
    assert(assoc_map(t) =~= m);
}

/// Adding a pair with a new key adds the key.
pub proof fn lemma_assoc_push<K, V>(s: Seq<(K, V)>, key: K, v: V)
    requires
        keys_distinct(s),
        !assoc_map(s).contains_key(key),
    ensures
        keys_distinct(s.push((key, v))),
        assoc_map(s.push((key, v))) == assoc_map(s).insert(key, v),
{
    let t = s.push((key, v));
    let n = s.len() as int;
    assert forall|a: int, b: int| 0 <= a < b < t.len() implies (#[trigger] t[a]).0 != (
    #[trigger] t[b]).0 by {
        if b == n {
            assert(s[a].0 != key);
        } else {
            assert(t[a] == s[a] && t[b] == s[b]);
        }
    }
    let m = assoc_map(s).insert(key, v);
    assert forall|k: K| assoc_map(t).contains_key(k) == m.contains_key(k) by {
        if assoc_map(t).contains_key(k) {
            let j = index_of(t, k);
            if j < n {
                assert(s[j].0 == k);
            }
        }
        if m.contains_key(k) && k != key {
            let j = index_of(s, k);
            assert(t[j].0 == k);
        }
        if k == key {
            assert(t[n].0 == k);
        }
    }
    assert forall|k: K| m.contains_key(k) implies assoc_map(t)[k] == m[k] by {
        let j = lemma_assoc_witness(t, k);
        if k == key {
            assert(t[n].0 == t[j].0);
            assert(j == n);
        } else {
            assert(j != n);
            assert(s[j] == t[j]);
            lemma_assoc_index(s, j);
        }
    }
    assert(assoc_map(t) =~= m);
}

/// Taking a pair out takes its key out.
pub proof fn lemma_assoc_remove<K, V>(s: Seq<(K, V)>, i: int)
    requires
        keys_distinct(s),
        0 <= i < s.len(),
    ensures
        keys_distinct(s.remove(i)),
        assoc_map(s.remove(i)) == assoc_map(s).remove(s[i].0),
{
    let key = s[i].0;
    let t = s.remove(i);
    assert forall|a: int| 0 <= a < t.len() implies #[trigger] t[a] == s[if a < i {
        a
    } else {
        a + 1
    }] by {}
    assert forall|a: int, b: int| 0 <= a < b < t.len() implies (#[trigger] t[a]).0 != (
    #[trigger] t[b]).0 by {
        let a0 = if a < i {
            a
        } else {
            a + 1
        };
        let b0 = if b < i {
            b
        } else {
            b + 1
        };
        assert(t[a] == s[a0] && t[b] == s[b0]);
    }
    let m = assoc_map(s).remove(key);
    assert forall|k: K| assoc_map(t).contains_key(k) == m.contains_key(k) by {
        if assoc_map(t).contains_key(k) {
            let j = index_of(t, k);
            let j0 = if j < i {
                j
            } else {
                j + 1
            };
            assert(s[j0].0 == k);
            assert(s[j0].0 != s[i].0);
        }
        if m.contains_key(k) {
            let j = index_of(s, k);
            assert(j != i);
            let j1 = if j < i {
                j
            } else {
                j - 1
            };
            assert(t[j1].0 == k);
        }
    }
    assert forall|k: K| m.contains_key(k) implies assoc_map(t)[k] == m[k] by {
        let j = lemma_assoc_witness(t, k);
        let j0 = if j < i {
            j
        } else {
            j + 1
        };
        assert(t[j] == s[j0]);
        lemma_assoc_index(s, j0);
    }
    assert(assoc_map(t) =~= m);
}

/// The number of items of `s` of which `f` holds.
pub open spec fn count_where<T>(s: Seq<T>, f: spec_fn(T) -> bool) -> nat
    decreases s.len(),
{
    if s.len() == 0 {
        0
    } else {
        count_where(s.drop_last(), f) + if f(s.last()) {
            1nat
        } else {
            0nat
        }
    }
}

/// Adding an item adds one to the number, if `f` holds of the item.
pub proof fn lemma_count_push<T>(s: Seq<T>, f: spec_fn(T) -> bool, x: T)
    ensures
        count_where(s.push(x), f) == count_where(s, f) + if f(x) {
            1nat
        } else {
            0nat
        },
{
    assert(s.push(x).drop_last() =~= s);
}

/// The number is at most the length, and 0 exactly if `f` holds of no item.
pub proof fn lemma_count_bounds<T>(s: Seq<T>, f: spec_fn(T) -> bool)
    ensures
        count_where(s, f) <= s.len(),
        count_where(s, f) == 0 <==> forall|i: int| 0 <= i < s.len() ==> !f(#[trigger] s[i]),
    decreases s.len(),
{
    if s.len() > 0 {
        lemma_count_bounds(s.drop_last(), f);
        let t = s.drop_last();
        if count_where(s, f) == 0 {
            assert forall|i: int| 0 <= i < s.len() implies !f(#[trigger] s[i]) by {
                if i < t.len() {
                    assert(t[i] == s[i]);
                }
            }
        }
        if forall|i: int| 0 <= i < s.len() ==> !f(#[trigger] s[i]) {
            assert forall|i: int| 0 <= i < t.len() implies !f(#[trigger] t[i]) by {
                assert(t[i] == s[i]);
            }
        }
    }
}

/// Replacing an item changes the number by what the two items count.
pub proof fn lemma_count_update<T>(s: Seq<T>, f: spec_fn(T) -> bool, i: int, x: T)
    requires
        0 <= i < s.len(),
    ensures
        count_where(s.update(i, x), f) + (if f(s[i]) {
            1nat
        } else {
            0nat
        }) == count_where(s, f) + if f(x) {
            1nat
        } else {
            0nat
        },
    decreases s.len(),
{
    let u = s.update(i, x);
    if i == s.len() - 1 {
        assert(u.drop_last() =~= s.drop_last());
    } else {
        lemma_count_update(s.drop_last(), f, i, x);
        assert(u.drop_last() =~= s.drop_last().update(i, x));
    }
}

/// Taking an item out takes one off the number, if `f` holds of the item.
pub proof fn lemma_count_remove<T>(s: Seq<T>, f: spec_fn(T) -> bool, i: int)
    requires
        0 <= i < s.len(),
    ensures
        count_where(s.remove(i), f) + (if f(s[i]) {
            1nat
        } else {
            0nat
        }) == count_where(s, f),
    decreases s.len(),
{
    let r = s.remove(i);
    if i == s.len() - 1 {
        assert(r =~= s.drop_last());
    } else {
        lemma_count_remove(s.drop_last(), f, i);
        assert(r.drop_last() =~= s.drop_last().remove(i));
        assert(r.last() == s.last());
    }
}

} // verus!
