//! Association lists standing for maps: a sequence of key and value pairs, each key once.

use vstd::prelude::*;

verus! {

/// No key occurs twice.
pub open spec fn unique_keys<K, V>(s: Seq<(K, V)>) -> bool {
    forall|i: int, j: int| 0 <= i < j < s.len() ==> s[i].0 != s[j].0
}

/// Some pair has key `k`.
pub open spec fn has_key<K, V>(s: Seq<(K, V)>, k: K) -> bool {
    exists|i: int| 0 <= i < s.len() && s[i].0 == k
}

/// The value of a pair with key `k`.
pub open spec fn value_at<K, V>(s: Seq<(K, V)>, k: K) -> V {
    s[choose|i: int| 0 <= i < s.len() && s[i].0 == k].1
}

/// The map the list stands for.
pub open spec fn to_map<K, V>(s: Seq<(K, V)>) -> Map<K, V> {
    Map::new(|k: K| has_key(s, k), |k: K| value_at(s, k))
}

/// The value of a pair is the value of its key.
pub proof fn lemma_value_at<K, V>(s: Seq<(K, V)>, i: int)
    requires
        unique_keys(s),
        0 <= i < s.len(),
    ensures
        has_key(s, s[i].0),
        value_at(s, s[i].0) == s[i].1,
        to_map(s).contains_key(s[i].0),
        to_map(s)[s[i].0] == s[i].1,
{
    assert(has_key(s, s[i].0));
    let j = choose|j: int| 0 <= j < s.len() && s[j].0 == s[i].0;
    assert(j == i);
}

/// Replacing the value at index `i` stores it under its key.
pub proof fn lemma_update<K, V>(s: Seq<(K, V)>, i: int, v: V)
    requires
        unique_keys(s),
        0 <= i < s.len(),
    ensures
        unique_keys(s.update(i, (s[i].0, v))),
        to_map(s.update(i, (s[i].0, v))) == to_map(s).insert(s[i].0, v),
{
    let t = s.update(i, (s[i].0, v));
    let k = s[i].0;
    assert forall|x: K| #[trigger] to_map(t).contains_key(x) <==> to_map(s).insert(k, v).contains_key(x) by {
        if has_key(s, x) {
            let j = choose|j: int| 0 <= j < s.len() && s[j].0 == x;
            assert(t[j].0 == x);
        }
        if has_key(t, x) {
            let j = choose|j: int| 0 <= j < t.len() && t[j].0 == x;
            assert(s[j].0 == x);
        }
    }
    assert forall|x: K| #[trigger] to_map(t).contains_key(x) implies to_map(t)[x] == to_map(s).insert(k, v)[x] by {
        let j = choose|j: int| 0 <= j < t.len() && t[j].0 == x;
        lemma_value_at(t, j);
        if x != k {
            lemma_value_at(s, j);
        }
    }
    assert(to_map(t) =~= to_map(s).insert(k, v));
}

/// Appending a pair with a new key stores its value.
pub proof fn lemma_push<K, V>(s: Seq<(K, V)>, k: K, v: V)
    requires
        unique_keys(s),
        !has_key(s, k),
    ensures
        unique_keys(s.push((k, v))),
        to_map(s.push((k, v))) == to_map(s).insert(k, v),
{
    let t = s.push((k, v));
    assert forall|i: int, j: int| 0 <= i < j < t.len() implies t[i].0 != t[j].0 by {
        if j == s.len() {
            assert(s[i].0 == t[i].0);
        }
    }
    assert forall|x: K| #[trigger] to_map(t).contains_key(x) <==> to_map(s).insert(k, v).contains_key(x) by {
        if has_key(s, x) {
            let j = choose|j: int| 0 <= j < s.len() && s[j].0 == x;
            assert(t[j].0 == x);
        }
        if x == k {
            assert(t[s.len() as int].0 == x);
        }
        if has_key(t, x) {
            let j = choose|j: int| 0 <= j < t.len() && t[j].0 == x;
            if j < s.len() {
                assert(s[j].0 == x);
            }
        }
    }
    assert forall|x: K| #[trigger] to_map(t).contains_key(x) implies to_map(t)[x] == to_map(s).insert(k, v)[x] by {
        let j = choose|j: int| 0 <= j < t.len() && t[j].0 == x;
        lemma_value_at(t, j);
        if x != k {
            lemma_value_at(s, j);
        }
    }
    assert(to_map(t) =~= to_map(s).insert(k, v));
}

/// Removing the pair at index `i` removes its key.
pub proof fn lemma_remove<K, V>(s: Seq<(K, V)>, i: int)
    requires
        unique_keys(s),
        0 <= i < s.len(),
    ensures
        unique_keys(s.remove(i)),
        to_map(s.remove(i)) == to_map(s).remove(s[i].0),
{
    let t = s.remove(i);
    let k = s[i].0;
    assert forall|a: int, b: int| 0 <= a < b < t.len() implies t[a].0 != t[b].0 by {
        let a2 = if a < i { a } else { a + 1 };
        let b2 = if b < i { b } else { b + 1 };
        assert(t[a] == s[a2] && t[b] == s[b2]);
    }
    assert forall|x: K| #[trigger] to_map(t).contains_key(x) <==> to_map(s).remove(k).contains_key(x) by {
        if has_key(t, x) {
            let j = choose|j: int| 0 <= j < t.len() && t[j].0 == x;
            let j2 = if j < i { j } else { j + 1 };
            assert(s[j2] == t[j]);
            assert(j2 != i);
        }
        if has_key(s, x) && x != k {
            let j = choose|j: int| 0 <= j < s.len() && s[j].0 == x;
            assert(j != i);
            let j2 = if j < i { j } else { j - 1 };
            assert(t[j2] == s[j]);
        }
    }
    assert forall|x: K| #[trigger] to_map(t).contains_key(x) implies to_map(t)[x] == to_map(s).remove(k)[x] by {
        let j = choose|j: int| 0 <= j < t.len() && t[j].0 == x;
        let j2 = if j < i { j } else { j + 1 };
        assert(s[j2] == t[j]);
        lemma_value_at(t, j);
        lemma_value_at(s, j2);
    }
    assert(to_map(t) =~= to_map(s).remove(k));
}

} // verus!
