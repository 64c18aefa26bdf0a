//! Vectors of records kept in strictly increasing order of their ids,
//! viewed as maps from id to record.
use vstd::prelude::*;
use crate::pairs::{keys_distinct, has_key, map_of_pairs, lemma_insert, lemma_update, lemma_remove, lemma_lookup, lemma_key_index};

verus! {

/// A record with a numeric id.
pub trait Keyed: View {
    spec fn key_of(&self) -> u64;

    fn key(&self) -> (r: u64)
        ensures
            r == self.key_of(),
    ;
}

impl Keyed for crate::node::Node {
    open spec fn key_of(&self) -> u64 {
        self.id
    }

    fn key(&self) -> (r: u64) {
        self.id
    }
}

impl Keyed for crate::edge::Edge {
    open spec fn key_of(&self) -> u64 {
        self.id
    }

    fn key(&self) -> (r: u64) {
        self.id
    }
}

/// Ids strictly increase along `s`.
pub open spec fn ids_increasing<T: Keyed>(s: Seq<T>) -> bool {
    forall|i: int, j: int| 0 <= i < j < s.len() ==> #[trigger] s[i].key_of() < #[trigger] s[j].key_of()
}

/// The records of `s` as id/view pairs.
pub open spec fn table_pairs<T: Keyed>(s: Seq<T>) -> Seq<(u64, <T as View>::V)> {
    s.map_values(|t: T| (t.key_of(), t@))
}

/// The map from id to record view that `s` holds.
pub open spec fn table_map<T: Keyed>(s: Seq<T>) -> Map<u64, <T as View>::V> {
    map_of_pairs(table_pairs(s))
}

/// The record views of `s`, in order.
pub open spec fn table_seq<T: Keyed>(s: Seq<T>) -> Seq<<T as View>::V> {
    s.map_values(|t: T| t@)
}

pub proof fn lemma_distinct<T: Keyed>(s: Seq<T>)
    requires
        ids_increasing(s),
    ensures
        keys_distinct(table_pairs(s)),
{
    let p = table_pairs(s);
    assert forall|i: int, j: int|
        0 <= i < p.len() && 0 <= j < p.len() && i != j implies #[trigger] p[i].0 != #[trigger] p[j].0 by {
        if i < j {
            assert(s[i].key_of() < s[j].key_of());
        } else {
            assert(s[j].key_of() < s[i].key_of());
        }
    }
}

/// What the map holds at the id of a position is that record.
pub proof fn lemma_at<T: Keyed>(s: Seq<T>, i: int)
    requires
        ids_increasing(s),
        0 <= i < s.len(),
    ensures
        table_map(s).contains_key(s[i].key_of()),
        table_map(s)[s[i].key_of()] == s[i]@,
{
    lemma_distinct(s);
    lemma_lookup(table_pairs(s), i);
}

/// Every id of the map is the id of some position.
pub proof fn lemma_index_of<T: Keyed>(s: Seq<T>, k: u64) -> (i: int)
    requires
        ids_increasing(s),
        table_map(s).contains_key(k),
    ensures
        0 <= i < s.len(),
        s[i].key_of() == k,
        table_map(s)[k] == s[i]@,
{
    lemma_distinct(s);
    lemma_key_index(table_pairs(s), k)
}

/// Where the record with id `k` is (`Ok`), or where it would go (`Err`).
pub fn find<T: Keyed>(v: &Vec<T>, k: u64) -> (r: Result<usize, usize>)
    requires
        ids_increasing(v@),
    ensures
        match r {
            Ok(i) => i < v@.len() && v@[i as int].key_of() == k,
            Err(p) => p <= v@.len() && (forall|i: int| 0 <= i < p ==> #[trigger] v@[i].key_of() < k)
                && (forall|i: int| p <= i < v@.len() ==> #[trigger] v@[i].key_of() > k),
        },
        r is Err <==> !table_map(v@).contains_key(k),
{
    let n = v.len();
    let mut i: usize = 0;
    while i < n
        invariant
            n == v@.len(),
            i <= n,
            ids_increasing(v@),
            forall|j: int| 0 <= j < i ==> #[trigger] v@[j].key_of() < k,
        decreases n - i,
    {
        let ki = v[i].key();
        if ki == k {
            proof {
                lemma_at(v@, i as int);
            }
            return Ok(i);
        }
        if ki > k {
            proof {
                assert forall|j: int| i <= j < v@.len() implies #[trigger] v@[j].key_of() > k by {
                    if j > i {
                        assert(v@[i as int].key_of() < v@[j].key_of());
                    }
                }
                if table_map(v@).contains_key(k) {
                    let j = lemma_index_of(v@, k);
                }
            }
            return Err(i);
        }
        i = i + 1;
    }
    proof {
        if table_map(v@).contains_key(k) {
            let j = lemma_index_of(v@, k);
        }
    }
    Err(n)
}

/// Puts `t` in the table, replacing the record with the same id if there is one.
pub fn put<T: Keyed>(v: &mut Vec<T>, t: T)
    requires
        ids_increasing(old(v)@),
    ensures
        ids_increasing(final(v)@),
        table_map(final(v)@) == table_map(old(v)@).insert(t.key_of(), t@),
        (forall|i: int| 0 <= i < old(v)@.len() ==> #[trigger] old(v)@[i].key_of() < t.key_of())
            ==> final(v)@ == old(v)@.push(t),
{
    let k = t.key();
    let ghost tv = t@;
    let ghost s = v@;
    proof {
        lemma_distinct(s);
    }
    match find(v, k) {
        Ok(i) => {
            v.set(i, t);
            proof {
                assert(table_pairs(v@) =~= table_pairs(s).update(i as int, (k, tv)));
                lemma_update(table_pairs(s), i as int, tv);
                assert forall|a: int, b: int| 0 <= a < b < v@.len() implies #[trigger] v@[a].key_of()
                    < #[trigger] v@[b].key_of() by {
                    assert(s[a].key_of() < s[b].key_of());
                }
                assert(old(v)@[i as int].key_of() == k);
            }
        },
        Err(p) => {
            v.insert(p, t);
            proof {
                assert(table_pairs(v@) =~= table_pairs(s).insert(p as int, (k, tv)));
                assert(!has_key(table_pairs(s), k));
                lemma_insert(table_pairs(s), p as int, k, tv);
                assert forall|a: int, b: int| 0 <= a < b < v@.len() implies #[trigger] v@[a].key_of()
                    < #[trigger] v@[b].key_of() by {
                    if b < p {
                        assert(s[a].key_of() < s[b].key_of());
                    } else if a < p && b == p {
                    } else if a < p {
                        assert(v@[b] == s[b - 1]);
                    } else if a == p {
                        assert(v@[b] == s[b - 1]);
                    } else {
                        assert(v@[a] == s[a - 1] && v@[b] == s[b - 1]);
                        assert(s[a - 1].key_of() < s[b - 1].key_of());
                    }
                }
                if forall|i: int| 0 <= i < s.len() ==> #[trigger] s[i].key_of() < k {
                    if p < s.len() {
                        assert(s[p as int].key_of() > k);
                    }
                    assert(v@ =~= s.push(t));
                }
            }
        },
    }
}

/// Removes the record with id `k`, if there is one.
pub fn take_out<T: Keyed>(v: &mut Vec<T>, k: u64)
    requires
        ids_increasing(old(v)@),
    ensures
        ids_increasing(final(v)@),
        table_map(final(v)@) == table_map(old(v)@).remove(k),
{
    let ghost s = v@;
    proof {
        lemma_distinct(s);
    }
    match find(v, k) {
        Ok(i) => {
            v.remove(i);
            proof {
                assert(table_pairs(v@) =~= table_pairs(s).remove(i as int));
                lemma_remove(table_pairs(s), i as int);
                assert forall|a: int, b: int| 0 <= a < b < v@.len() implies #[trigger] v@[a].key_of()
                    < #[trigger] v@[b].key_of() by {
                    let sa = if a < i { a } else { a + 1 };
                    let sb = if b < i { b } else { b + 1 };
                    assert(v@[a] == s[sa] && v@[b] == s[sb]);
                    assert(s[sa].key_of() < s[sb].key_of());
                }
            }
        },
        Err(_) => {
            proof {
                assert(table_map(s).remove(k) =~= table_map(s));
            }
        },
    }
}

} // verus!
