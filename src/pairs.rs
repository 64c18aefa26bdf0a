//! Finite maps represented as sequences of key/value pairs with distinct keys.
use vstd::prelude::*;

verus! {

/// No key occurs twice in `s`.
pub open spec fn keys_distinct<K, V>(s: Seq<(K, V)>) -> bool {
    forall|i: int, j: int|
        0 <= i < s.len() && 0 <= j < s.len() && i != j ==> #[trigger] s[i].0 != #[trigger] s[j].0
}

/// Some pair of `s` has key `k`.
pub open spec fn has_key<K, V>(s: Seq<(K, V)>, k: K) -> bool {
    exists|i: int| 0 <= i < s.len() && #[trigger] s[i].0 == k
}

/// The map that the pairs of `s` describe.
pub open spec fn map_of_pairs<K, V>(s: Seq<(K, V)>) -> Map<K, V> {
    Map::new(
        |k: K| has_key(s, k),
        |k: K| s[choose|i: int| 0 <= i < s.len() && #[trigger] s[i].0 == k].1,
    )
}

/// In a sequence with distinct keys, each pair is what the map holds for its key.
pub proof fn lemma_lookup<K, V>(s: Seq<(K, V)>, i: int)
    requires
        keys_distinct(s),
        0 <= i < s.len(),
    ensures
        map_of_pairs(s).contains_key(s[i].0),
        map_of_pairs(s)[s[i].0] == s[i].1,
{
    let k = s[i].0;
    assert(has_key(s, k));
    let j = choose|j: int| 0 <= j < s.len() && #[trigger] s[j].0 == k;
    assert(s[j].0 == s[i].0);
}

/// Every key of the map is the key of some position of the sequence.
pub proof fn lemma_key_index<K, V>(s: Seq<(K, V)>, k: K) -> (i: int)
    requires
        keys_distinct(s),
        map_of_pairs(s).contains_key(k),
    ensures
        0 <= i < s.len(),
        s[i].0 == k,
        map_of_pairs(s)[k] == s[i].1,
{
    let i = choose|i: int| 0 <= i < s.len() && #[trigger] s[i].0 == k;
    lemma_lookup(s, i);
    i
}

/// The empty sequence describes the empty map.
pub proof fn lemma_empty<K, V>()
    ensures
        keys_distinct(Seq::<(K, V)>::empty()),
        map_of_pairs(Seq::<(K, V)>::empty()) =~= Map::empty(),
{
}

/// Inserting a pair with a fresh key anywhere inserts it into the map.
pub proof fn lemma_insert<K, V>(s: Seq<(K, V)>, p: int, k: K, v: V)
    requires
        keys_distinct(s),
        !has_key(s, k),
        0 <= p <= s.len(),
    ensures
        keys_distinct(s.insert(p, (k, v))),
        map_of_pairs(s.insert(p, (k, v))) =~= map_of_pairs(s).insert(k, v),
{
    let t = s.insert(p, (k, v));
    assert forall|i: int, j: int|
        0 <= i < t.len() && 0 <= j < t.len() && i != j implies #[trigger] t[i].0
        != #[trigger] t[j].0 by {
        if i != p && j != p {
            let si = if i < p { i } else { i - 1 };
            let sj = if j < p { j } else { j - 1 };
            assert(t[i] == s[si] && t[j] == s[sj]);
        } else if i == p {
            let sj = if j < p { j } else { j - 1 };
            assert(t[j] == s[sj]);
        } else {
            let si = if i < p { i } else { i - 1 };
            assert(t[i] == s[si]);
        }
    }
    let m = map_of_pairs(s).insert(k, v);
    assert forall|kk: K| #[trigger] map_of_pairs(t).contains_key(kk) <==> m.contains_key(kk) by {
        if has_key(t, kk) {
            let i = choose|i: int| 0 <= i < t.len() && #[trigger] t[i].0 == kk;
            if i < p {
                assert(s[i].0 == kk);
            } else if i > p {
                assert(s[i - 1].0 == kk);
            }
        }
        if has_key(s, kk) {
            let i = choose|i: int| 0 <= i < s.len() && #[trigger] s[i].0 == kk;
            if i < p {
                assert(t[i].0 == kk);
            } else {
                assert(t[i + 1].0 == kk);
            }
        }
        assert(t[p].0 == k);
    }
    assert forall|kk: K| #[trigger] map_of_pairs(t).contains_key(kk) implies map_of_pairs(t)[kk]
        == m[kk] by {
        let i = lemma_key_index(t, kk);
        if i < p {
            lemma_lookup(s, i);
        } else if i > p {
            lemma_lookup(s, i - 1);
        }
    }
}

/// Appending a pair with a fresh key inserts it into the map.
pub proof fn lemma_push<K, V>(s: Seq<(K, V)>, k: K, v: V)
    requires
        keys_distinct(s),
        !has_key(s, k),
    ensures
        keys_distinct(s.push((k, v))),
        map_of_pairs(s.push((k, v))) =~= map_of_pairs(s).insert(k, v),
{
    assert(s.insert(s.len() as int, (k, v)) =~= s.push((k, v)));
    lemma_insert(s, s.len() as int, k, v);
}

/// Replacing the value at a position replaces the value of its key.
pub proof fn lemma_update<K, V>(s: Seq<(K, V)>, i: int, v: V)
    requires
        keys_distinct(s),
        0 <= i < s.len(),
    ensures
        keys_distinct(s.update(i, (s[i].0, v))),
        map_of_pairs(s.update(i, (s[i].0, v))) =~= map_of_pairs(s).insert(s[i].0, v),
{
    let k = s[i].0;
    let t = s.update(i, (k, v));
    assert forall|a: int, b: int|
        0 <= a < t.len() && 0 <= b < t.len() && a != b implies #[trigger] t[a].0
        != #[trigger] t[b].0 by {
        assert(t[a].0 == s[a].0 && t[b].0 == s[b].0);
    }
    let m = map_of_pairs(s).insert(k, v);
    assert forall|kk: K| #[trigger] map_of_pairs(t).contains_key(kk) <==> m.contains_key(kk) by {
        if has_key(t, kk) {
            let j = choose|j: int| 0 <= j < t.len() && #[trigger] t[j].0 == kk;
            assert(s[j].0 == kk);
        }
        if has_key(s, kk) {
            let j = choose|j: int| 0 <= j < s.len() && #[trigger] s[j].0 == kk;
            assert(t[j].0 == kk);
        }
        assert(t[i].0 == k);
    }
    assert forall|kk: K| #[trigger] map_of_pairs(t).contains_key(kk) implies map_of_pairs(t)[kk]
        == m[kk] by {
        let j = lemma_key_index(t, kk);
        if j != i {
            lemma_lookup(s, j);
        }
    }
}

/// Removing a position removes its key from the map.
pub proof fn lemma_remove<K, V>(s: Seq<(K, V)>, i: int)
    requires
        keys_distinct(s),
        0 <= i < s.len(),
    ensures
        keys_distinct(s.remove(i)),
        map_of_pairs(s.remove(i)) =~= map_of_pairs(s).remove(s[i].0),
{
    let k = s[i].0;
    let t = s.remove(i);
    assert forall|a: int, b: int|
        0 <= a < t.len() && 0 <= b < t.len() && a != b implies #[trigger] t[a].0
        != #[trigger] t[b].0 by {
        let sa = if a < i { a } else { a + 1 };
        let sb = if b < i { b } else { b + 1 };
        assert(t[a] == s[sa] && t[b] == s[sb]);
    }
    let m = map_of_pairs(s).remove(k);
    assert forall|kk: K| #[trigger] map_of_pairs(t).contains_key(kk) <==> m.contains_key(kk) by {
        if has_key(t, kk) {
            let j = choose|j: int| 0 <= j < t.len() && #[trigger] t[j].0 == kk;
            let sj = if j < i { j } else { j + 1 };
            assert(s[sj].0 == kk);
        }
        if has_key(s, kk) && kk != k {
            let j = choose|j: int| 0 <= j < s.len() && #[trigger] s[j].0 == kk;
            if j < i {
                assert(t[j].0 == kk);
            } else {
                assert(t[j - 1].0 == kk);
            }
        }
    }
    assert forall|kk: K| #[trigger] map_of_pairs(t).contains_key(kk) implies map_of_pairs(t)[kk]
        == m[kk] by {
        let j = lemma_key_index(t, kk);
        let sj = if j < i { j } else { j + 1 };
        lemma_lookup(s, sj);
    }
}

/// A sequence with distinct keys describes a finite map with one entry per pair.
pub proof fn lemma_len<K, V>(s: Seq<(K, V)>)
    requires
        keys_distinct(s),
    ensures
        map_of_pairs(s).dom().finite(),
        map_of_pairs(s).len() == s.len(),
    decreases s.len(),
{
    if s.len() == 0 {
        assert(map_of_pairs(s) =~= Map::empty());
    } else {
        let t = s.drop_last();
        let last = s.last();
        assert(keys_distinct(t)) by {
            assert forall|a: int, b: int|
                0 <= a < t.len() && 0 <= b < t.len() && a != b implies #[trigger] t[a].0
                != #[trigger] t[b].0 by {
                assert(t[a] == s[a] && t[b] == s[b]);
            }
        }
        assert(!has_key(t, last.0)) by {
            if has_key(t, last.0) {
                let j = choose|j: int| 0 <= j < t.len() && #[trigger] t[j].0 == last.0;
                assert(s[j].0 == s[s.len() - 1].0);
            }
        }
        lemma_len(t);
        lemma_push(t, last.0, last.1);
        assert(t.push((last.0, last.1)) =~= s);
    }
}

} // verus!
