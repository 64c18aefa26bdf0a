//! String-keyed, string-valued properties of nodes and edges.
use vstd::prelude::*;
use crate::pairs::{keys_distinct, has_key, map_of_pairs, lemma_empty, lemma_push, lemma_update, lemma_lookup};

verus! {

/// The views of a sequence of string pairs.
pub open spec fn string_pairs(s: Seq<(String, String)>) -> Seq<(Seq<char>, Seq<char>)> {
    s.map_values(|e: (String, String)| (e.0@, e.1@))
}

/// A mapping from property names to property values. Entries keep the
/// order in which their keys were first inserted.
#[derive(Debug)]
pub struct Properties {
    entries: Vec<(String, String)>,
}

impl Properties {
    #[verifier::type_invariant]
    spec fn inv(&self) -> bool {
        keys_distinct(string_pairs(self.entries@))
    }

    /// The entries, as views, in their stored order.
    pub closed spec fn pairs(&self) -> Seq<(Seq<char>, Seq<char>)> {
        string_pairs(self.entries@)
    }

    /// The stored order of the entries describes the mapping.
    pub proof fn lemma_pairs(&self)
        ensures
            self@ == map_of_pairs(self.pairs()),
    {
    }

    /// An empty set of properties.
    pub fn new() -> (r: Properties)
        ensures
            r@ == Map::<Seq<char>, Seq<char>>::empty(),
            r.pairs() == Seq::<(Seq<char>, Seq<char>)>::empty(),
    {
        let r = Properties { entries: Vec::new() };
        proof {
            assert(string_pairs(r.entries@) =~= Seq::empty());
            lemma_empty::<Seq<char>, Seq<char>>();
        }
        r
    }

    /// The number of properties.
    pub fn len(&self) -> (n: usize)
        ensures
            n == self.pairs().len(),
            n == self@.len(),
    {
        proof {
            use_type_invariant(self);
            crate::pairs::lemma_len(self.pairs());
        }
        self.entries.len()
    }

    /// The entries in their stored order.
    pub fn entries(&self) -> (r: &Vec<(String, String)>)
        ensures
            string_pairs(r@) == self.pairs(),
            keys_distinct(self.pairs()),
    {
        proof {
            use_type_invariant(self);
        }
        &self.entries
    }

    /// The position of the entry with key `key`, if any.
    fn position(&self, key: &str) -> (r: Option<usize>)
        ensures
            match r {
                Some(i) => i < self.pairs().len() && self.pairs()[i as int].0 == key@,
                None => !has_key(self.pairs(), key@),
            },
    {
        let n = self.entries.len();
        let mut i: usize = 0;
        while i < n
            invariant
                n == self.entries@.len(),
                i <= n,
                forall|j: int| 0 <= j < i ==> #[trigger] self.pairs()[j].0 != key@,
            decreases n - i,
        {
            if crate::text::str_eq(self.entries[i].0.as_str(), key) {
                return Some(i);
            }
            i = i + 1;
        }
        None
    }

    /// Whether a property named `key` is present.
    pub fn contains_key(&self, key: &str) -> (r: bool)
        ensures
            r == self@.contains_key(key@),
    {
        proof {
            use_type_invariant(self);
        }
        self.position(key).is_some()
    }

    /// The value of the property named `key`, if any.
    pub fn get(&self, key: &str) -> (r: Option<&String>)
        ensures
            match r {
                Some(v) => self@.contains_key(key@) && self@[key@] == v@,
                None => !self@.contains_key(key@),
            },
    {
        proof {
            use_type_invariant(self);
        }
        match self.position(key) {
            Some(i) => {
                proof {
                    lemma_lookup(self.pairs(), i as int);
                }
                Some(&self.entries[i].1)
            },
            None => None,
        }
    }

    /// Sets the property `key` to `value`, replacing any earlier value.
    /// A new key goes after the existing ones.
    pub fn insert(&mut self, key: String, value: String)
        ensures
            final(self)@ == old(self)@.insert(key@, value@),
            !has_key(old(self).pairs(), key@) ==> final(self).pairs() == old(self).pairs().push(
                (key@, value@),
            ),
    {
        proof {
            use_type_invariant(&*self);
        }
        let pos = self.position(key.as_str());
        let mut entries: Vec<(String, String)> = Vec::new();
        std::mem::swap(&mut entries, &mut self.entries);
        let ghost old_entries = entries@;
        match pos {
            Some(i) => {
                let ghost k = string_pairs(old_entries)[i as int].0;
                entries.set(i, (key, value));
                proof {
                    lemma_update(string_pairs(old_entries), i as int, value@);
                    assert(string_pairs(entries@) =~= string_pairs(old_entries).update(
                        i as int,
                        (k, value@),
                    ));
                }
            },
            None => {
                entries.push((key, value));
                proof {
                    lemma_push(string_pairs(old_entries), key@, value@);
                    assert(string_pairs(entries@) =~= string_pairs(old_entries).push(
                        (key@, value@),
                    ));
                }
            },
        }
        self.entries = entries;
    }
}

impl Clone for Properties {
    fn clone(&self) -> (r: Self)
        ensures
            r@ == self@,
            r.pairs() == self.pairs(),
    {
        proof {
            use_type_invariant(self);
        }
        let n = self.entries.len();
        let mut entries: Vec<(String, String)> = Vec::new();
        let mut i: usize = 0;
        while i < n
            invariant
                n == self.entries@.len(),
                i <= n,
                entries@.len() == i,
                string_pairs(entries@) =~= string_pairs(self.entries@).take(i as int),
            decreases n - i,
        {
            let k = self.entries[i].0.clone();
            let v = self.entries[i].1.clone();
            entries.push((k, v));
            i = i + 1;
        }
        proof {
            assert(string_pairs(self.entries@).take(n as int) =~= string_pairs(self.entries@));
        }
        Properties { entries }
    }
}

impl View for Properties {
    type V = Map<Seq<char>, Seq<char>>;

    closed spec fn view(&self) -> Map<Seq<char>, Seq<char>> {
        map_of_pairs(string_pairs(self.entries@))
    }
}

} // verus!
