//! Association lists: a sequence of key/value pairs whose keys are distinct,
//! read as the map from each key to its value.

use vstd::prelude::*;

verus! {

/// No key occurs twice in `s`.
pub open spec fn keys_distinct<K, V>(s: Seq<(K, V)>) -> bool {
    forall|i: int, j: int|
        0 <= i < s.len() && 0 <= j < s.len() && i != j ==> #[trigger] s[i].0 != #[trigger] s[j].0
}

/// Position `i` of `s` holds key `k`.
pub open spec fn key_at<K, V>(s: Seq<(K, V)>, k: K, i: int) -> bool {
    0 <= i < s.len() && s[i].0 == k
}

/// The map from each key of `s` to the value beside it.
pub open spec fn assoc_map<K, V>(s: Seq<(K, V)>) -> Map<K, V> {
    Map::new(|k: K| exists|i: int| key_at(s, k, i), |k: K| s[choose|i: int| key_at(s, k, i)].1)
}

pub proof fn lemma_assoc_index<K, V>(s: Seq<(K, V)>, i: int)
    requires
        keys_distinct(s),
        0 <= i < s.len(),
    ensures
        assoc_map(s).contains_key(s[i].0),
        assoc_map(s)[s[i].0] == s[i].1,
{
    assert(key_at(s, s[i].0, i));
    let j = choose|j: int| key_at(s, s[i].0, j);
    assert(key_at(s, s[i].0, j));
    if j != i {
        assert(s[i].0 != s[j].0);
    }
}

pub proof fn lemma_assoc_absent<K, V>(s: Seq<(K, V)>, k: K)
    requires
        forall|i: int| 0 <= i < s.len() ==> s[i].0 != k,
    ensures
        !assoc_map(s).contains_key(k),
{
    if exists|i: int| key_at(s, k, i) {
        let i = choose|i: int| key_at(s, k, i);
        assert(s[i].0 != k);
    }
}

pub proof fn lemma_assoc_contains<K, V>(s: Seq<(K, V)>, k: K)
    requires
        assoc_map(s).contains_key(k),
    ensures
        exists|i: int| key_at(s, k, i),
{
}

pub proof fn lemma_assoc_empty<K, V>()
    ensures
        assoc_map(Seq::<(K, V)>::empty()) == Map::<K, V>::empty(),
{
    assert(assoc_map(Seq::<(K, V)>::empty()) =~= Map::<K, V>::empty());
}

pub proof fn lemma_assoc_push<K, V>(s: Seq<(K, V)>, k: K, v: V)
    requires
        keys_distinct(s),
        !assoc_map(s).contains_key(k),
    ensures
        keys_distinct(s.push((k, v))),
        assoc_map(s.push((k, v))) == assoc_map(s).insert(k, v),
{
    let t = s.push((k, v));
    assert forall|i: int| 0 <= i < s.len() implies s[i].0 != k by {
        if s[i].0 == k {
            assert(key_at(s, k, i));
        }
    }
    assert(keys_distinct(t)) by {
        assert forall|i: int, j: int|
            0 <= i < t.len() && 0 <= j < t.len() && i != j implies #[trigger] t[i].0
            != #[trigger] t[j].0 by {
            if i < s.len() && j < s.len() {
                assert(s[i].0 != s[j].0);
            }
        }
    }
    let m = assoc_map(s).insert(k, v);
    assert forall|x: K| #[trigger] assoc_map(t).contains_key(x) <==> m.contains_key(x) by {
        if m.contains_key(x) && x != k {
            let i = choose|i: int| key_at(s, x, i);
            assert(key_at(t, x, i));
        }
        if assoc_map(t).contains_key(x) && x != k {
            let i = choose|i: int| key_at(t, x, i);
            assert(key_at(s, x, i));
        }
        if x == k {
            assert(key_at(t, k, s.len() as int));
        }
    }
    assert forall|x: K| #[trigger] assoc_map(t).contains_key(x) implies assoc_map(t)[x] == m[x] by {
        let i = choose|i: int| key_at(t, x, i);
        lemma_assoc_index(t, i);
        if x != k {
            assert(key_at(s, x, i));
            lemma_assoc_index(s, i);
        }
    }
    assert(assoc_map(t) =~= m);
}

pub proof fn lemma_assoc_update<K, V>(s: Seq<(K, V)>, i: int, v: V)
    requires
        keys_distinct(s),
        0 <= i < s.len(),
    ensures
        keys_distinct(s.update(i, (s[i].0, v))),
        assoc_map(s.update(i, (s[i].0, v))) == assoc_map(s).insert(s[i].0, v),
{
    let k = s[i].0;
    let t = s.update(i, (k, v));
    assert(keys_distinct(t)) by {
        assert forall|a: int, b: int|
            0 <= a < t.len() && 0 <= b < t.len() && a != b implies #[trigger] t[a].0
            != #[trigger] t[b].0 by {
            assert(s[a].0 != s[b].0);
        }
    }
    lemma_assoc_index(s, i);
    let m = assoc_map(s).insert(k, v);
    assert forall|x: K| #[trigger] assoc_map(t).contains_key(x) <==> m.contains_key(x) by {
        if m.contains_key(x) {
            if x == k {
                assert(key_at(t, x, i));
            } else {
                let j = choose|j: int| key_at(s, x, j);
                assert(key_at(t, x, j));
            }
        }
        if assoc_map(t).contains_key(x) {
            let j = choose|j: int| key_at(t, x, j);
            assert(key_at(s, x, j));
        }
    }
    assert forall|x: K| #[trigger] assoc_map(t).contains_key(x) implies assoc_map(t)[x] == m[x] by {
        let j = choose|j: int| key_at(t, x, j);
        lemma_assoc_index(t, j);
        assert(key_at(s, x, j));
        lemma_assoc_index(s, j);
    }
    assert(assoc_map(t) =~= m);
}

pub proof fn lemma_assoc_remove<K, V>(s: Seq<(K, V)>, i: int)
    requires
        keys_distinct(s),
        0 <= i < s.len(),
    ensures
        keys_distinct(s.remove(i)),
        assoc_map(s.remove(i)) == assoc_map(s).remove(s[i].0),
{
    let k = s[i].0;
    let t = s.remove(i);
    assert forall|a: int| 0 <= a < t.len() implies #[trigger] t[a] == (if a < i {
        s[a]
    } else {
        s[a + 1]
    }) by {}
    assert(keys_distinct(t)) by {
        assert forall|a: int, b: int|
            0 <= a < t.len() && 0 <= b < t.len() && a != b implies #[trigger] t[a].0
            != #[trigger] t[b].0 by {
            let a2 = if a < i {
                a
            } else {
                a + 1
            };
            let b2 = if b < i {
                b
            } else {
                b + 1
            };
            assert(s[a2].0 != s[b2].0);
        }
    }
    let m = assoc_map(s).remove(k);
    assert forall|x: K| #[trigger] assoc_map(t).contains_key(x) <==> m.contains_key(x) by {
        if m.contains_key(x) {
            let j = choose|j: int| key_at(s, x, j);
            assert(j != i);
            if j < i {
                assert(key_at(t, x, j));
            } else {
                assert(key_at(t, x, j - 1));
            }
        }
        if assoc_map(t).contains_key(x) {
            let j = choose|j: int| key_at(t, x, j);
            let j2 = if j < i {
                j
            } else {
                j + 1
            };
            assert(key_at(s, x, j2));
            assert(s[j2].0 != s[i].0);
        }
    }
    assert forall|x: K| #[trigger] assoc_map(t).contains_key(x) implies assoc_map(t)[x] == m[x] by {
        let j = choose|j: int| key_at(t, x, j);
        lemma_assoc_index(t, j);
        let j2 = if j < i {
            j
        } else {
            j + 1
        };
        assert(key_at(s, x, j2));
        lemma_assoc_index(s, j2);
    }
    assert(assoc_map(t) =~= m);
}

} // verus!
