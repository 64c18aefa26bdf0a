//! Lists of values grouped under numeric keys, kept as key/list pairs with
//! distinct keys in order of each key's first appearance.
use vstd::prelude::*;
use crate::pairs::{keys_distinct, has_key, map_of_pairs, lemma_push, lemma_update, lemma_lookup};

verus! {

/// The views of the values of a list.
pub open spec fn list_view<V: View>(l: Seq<V>) -> Seq<V::V> {
    l.map_values(|x: V| x@)
}

pub proof fn lemma_list_view_push<V: View>(l: Seq<V>, x: V)
    ensures
        list_view(l.push(x)) == list_view(l).push(x@),
{
    let a = list_view(l.push(x));
    let b = list_view(l).push(x@);
    assert forall|j: int| 0 <= j < a.len() implies a[j] == b[j] by {
        if j < l.len() {
            assert(l.push(x)[j] == l[j]);
        }
    }
    assert(a =~= b);
}

/// The views of a sequence of groups.
pub open spec fn group_view<V: View>(s: Seq<(u64, Vec<V>)>) -> Seq<(u64, Seq<V::V>)> {
    s.map_values(|p: (u64, Vec<V>)| (p.0, list_view(p.1@)))
}

/// `m` with `w` appended to the list under `k`, which starts empty.
pub open spec fn grouped_insert<W>(m: Map<u64, Seq<W>>, k: u64, w: W) -> Map<u64, Seq<W>> {
    m.insert(k, if m.contains_key(k) { m[k].push(w) } else { seq![w] })
}

/// Appends `item` to the list under `key`, starting a new group at the end if
/// there is none.
pub fn group_push<V: View>(groups: &mut Vec<(u64, Vec<V>)>, key: u64, item: V)
    requires
        keys_distinct(group_view(old(groups)@)),
    ensures
        keys_distinct(group_view(final(groups)@)),
        map_of_pairs(group_view(final(groups)@)) == grouped_insert(
            map_of_pairs(group_view(old(groups)@)),
            key,
            item@,
        ),
{
    let ghost s = group_view(groups@);
    let ghost w = item@;
    let n = groups.len();
    let mut i: usize = 0;
    while i < n
        invariant
            n == groups@.len(),
            i <= n,
            s == group_view(groups@),
            s == group_view(old(groups)@),
            keys_distinct(s),
            w == item@,
            forall|j: int| 0 <= j < i ==> #[trigger] groups@[j].0 != key,
        decreases n - i,
    {
        if groups[i].0 == key {
            let ghost old_groups = groups@;
            groups[i].1.push(item);
            proof {
                assert(groups@[i as int].1@ == old_groups[i as int].1@.push(item));
                assert(groups@[i as int].0 == key);
                assert(forall|j: int| 0 <= j < n && j != i ==> groups@[j] == old_groups[j]);
                assert(s[i as int] == (old_groups[i as int].0, list_view(old_groups[i as int].1@)));
                lemma_list_view_push(old_groups[i as int].1@, item);
                assert(list_view(groups@[i as int].1@) == s[i as int].1.push(w));
                assert(s[i as int].0 == key);
                lemma_lookup(s, i as int);
                assert(group_view(groups@) =~= s.update(i as int, (key, s[i as int].1.push(w))));
                lemma_update(s, i as int, s[i as int].1.push(w));
            }
            return;
        }
        i = i + 1;
    }
    let mut fresh: Vec<V> = Vec::new();
    fresh.push(item);
    groups.push((key, fresh));
    proof {
        assert(!has_key(s, key)) by {
            if has_key(s, key) {
                let j = choose|j: int| 0 <= j < s.len() && #[trigger] s[j].0 == key;
                assert(groups@[j].0 == key);
            }
        }
        assert(list_view(fresh@) =~= seq![w]);
        assert(group_view(groups@) =~= s.push((key, seq![w])));
        lemma_push(s, key, seq![w]);
    }
}

} // verus!
