//! Vectors of values keyed by distinct names, viewed as maps from name to value.
use vstd::prelude::*;
use crate::pairs::{keys_distinct, map_of_pairs, lemma_push, lemma_update, lemma_remove, lemma_lookup, lemma_key_index};
use crate::text::str_eq;

verus! {

/// The views of the names and values.
pub open spec fn named_view<V: View>(s: Seq<(String, V)>) -> Seq<(Seq<char>, V::V)> {
    s.map_values(|e: (String, V)| (e.0@, e.1@))
}

/// The map from name to value view.
pub open spec fn named_map<V: View>(s: Seq<(String, V)>) -> Map<Seq<char>, V::V> {
    map_of_pairs(named_view(s))
}

/// The names are distinct.
pub open spec fn names_distinct<V: View>(s: Seq<(String, V)>) -> bool {
    keys_distinct(named_view(s))
}

/// Some entry of `s` has value `x`.
pub open spec fn holds_value<V>(s: Seq<(String, V)>, x: V) -> bool {
    exists|j: int| 0 <= j < s.len() && s[j].1 == x
}

/// Where the entry named `name` is, if there is one.
pub fn find_name<V: View>(v: &Vec<(String, V)>, name: &str) -> (r: Option<usize>)
    requires
        names_distinct(v@),
    ensures
        match r {
            Some(i) => i < v@.len() && v@[i as int].0@ == name@ && named_map(v@).contains_key(name@)
                && named_map(v@)[name@] == v@[i as int].1@,
            None => !named_map(v@).contains_key(name@),
        },
{
    let n = v.len();
    let mut i: usize = 0;
    while i < n
        invariant
            n == v@.len(),
            i <= n,
            names_distinct(v@),
            forall|j: int| 0 <= j < i ==> #[trigger] v@[j].0@ != name@,
        decreases n - i,
    {
        if str_eq(v[i].0.as_str(), name) {
            proof {
                lemma_lookup(named_view(v@), i as int);
            }
            return Some(i);
        }
        i = i + 1;
    }
    proof {
        if named_map(v@).contains_key(name@) {
            let j = lemma_key_index(named_view(v@), name@);
            assert(v@[j].0@ == name@);
        }
    }
    None
}

/// Puts `x` under `name`, replacing the value there if any.
pub fn put_named<V: View>(v: &mut Vec<(String, V)>, name: String, x: V)
    requires
        names_distinct(old(v)@),
    ensures
        names_distinct(final(v)@),
        named_map(final(v)@) == named_map(old(v)@).insert(name@, x@),
        forall|i: int| 0 <= i < final(v)@.len() ==> #[trigger] final(v)@[i].1 == x || holds_value(old(v)@, final(v)@[i].1),
{
    let ghost s = named_view(v@);
    let ghost nv = name@;
    let ghost xv = x@;
    let ghost ov = v@;
    match find_name(v, name.as_str()) {
        Some(i) => {
            v.set(i, (name, x));
            proof {
                assert(named_view(v@) =~= s.update(i as int, (nv, xv)));
                assert(s[i as int].0 == nv);
                lemma_update(s, i as int, xv);
                assert forall|k: int| 0 <= k < v@.len() implies #[trigger] v@[k].1 == x || holds_value(ov, v@[k].1) by {
                    if k != i {
                        assert(v@[k].1 == ov[k].1);
                    }
                }
            }
        },
        None => {
            v.push((name, x));
            proof {
                assert(named_view(v@) =~= s.push((nv, xv)));
                lemma_push(s, nv, xv);
                assert forall|k: int| 0 <= k < v@.len() implies #[trigger] v@[k].1 == x || holds_value(ov, v@[k].1) by {
                    if k < ov.len() {
                        assert(v@[k].1 == ov[k].1);
                    }
                }
            }
        },
    }
}

/// Removes the entry named `name` and returns its value, if there is one.
pub fn take_named<V: View>(v: &mut Vec<(String, V)>, name: &str) -> (r: Option<V>)
    requires
        names_distinct(old(v)@),
    ensures
        names_distinct(final(v)@),
        named_map(final(v)@) == named_map(old(v)@).remove(name@),
        match r {
            Some(x) => named_map(old(v)@).contains_key(name@) && x@ == named_map(old(v)@)[name@]
                && holds_value(old(v)@, x),
            None => !named_map(old(v)@).contains_key(name@),
        },
        forall|i: int| 0 <= i < final(v)@.len() ==> holds_value(old(v)@, #[trigger] final(v)@[i].1),
{
    let ghost s = named_view(v@);
    let ghost ov = v@;
    match find_name(v, name) {
        Some(i) => {
            let (_, x) = v.remove(i);
            proof {
                assert(ov[i as int].1 == x);
                assert(named_view(v@) =~= s.remove(i as int));
                lemma_remove(s, i as int);
                assert forall|k: int| 0 <= k < v@.len() implies holds_value(ov, #[trigger] v@[k].1) by {
                    if k < i {
                        assert(v@[k].1 == ov[k].1);
                    } else {
                        assert(v@[k].1 == ov[k + 1].1);
                    }
                }
            }
            Some(x)
        },
        None => {
            proof {
                assert(named_map(ov).remove(name@) =~= named_map(ov));
                assert forall|k: int| 0 <= k < v@.len() implies holds_value(ov, #[trigger] v@[k].1) by {
                    assert(v@[k].1 == ov[k].1);
                }
            }
            None
        },
    }
}

/// The names, in stored order.
pub fn names_of<V: View>(v: &Vec<(String, V)>) -> (r: Vec<String>)
    requires
        names_distinct(v@),
    ensures
        r@.len() == v@.len(),
        forall|i: int| 0 <= i < r@.len() ==> #[trigger] r@[i]@ == v@[i].0@,
        forall|k: Seq<char>| named_map(v@).contains_key(k) <==> exists|i: int| 0 <= i < r@.len() && #[trigger] r@[i]@ == k,
{
    let n = v.len();
    let mut r: Vec<String> = Vec::new();
    let mut i: usize = 0;
    while i < n
        invariant
            n == v@.len(),
            i <= n,
            r@.len() == i,
            forall|j: int| 0 <= j < i ==> #[trigger] r@[j]@ == v@[j].0@,
        decreases n - i,
    {
        r.push(v[i].0.clone());
        i = i + 1;
    }
    proof {
        assert forall|k: Seq<char>| named_map(v@).contains_key(k) <==> exists|i: int| 0 <= i < r@.len() && #[trigger] r@[i]@ == k by {
            if named_map(v@).contains_key(k) {
                let j = choose|j: int| 0 <= j < named_view(v@).len() && #[trigger] named_view(v@)[j].0 == k;
                assert(r@[j]@ == k);
            }
            if exists|i: int| 0 <= i < r@.len() && #[trigger] r@[i]@ == k {
                let i = choose|i: int| 0 <= i < r@.len() && #[trigger] r@[i]@ == k;
                assert(named_view(v@)[i].0 == k);
            }
        }
    }
    r
}

} // verus!
