//! The single built-in credential check.
use vstd::prelude::*;
use crate::named::{find_name, names_distinct, named_map, put_named};
use crate::text::str_eq;

verus! {

/// Passwords by user name.
pub struct AuthManager {
    users: Vec<(String, String)>,
}

impl View for AuthManager {
    type V = Map<Seq<char>, Seq<char>>;

    closed spec fn view(&self) -> Map<Seq<char>, Seq<char>> {
        named_map(self.users@)
    }
}

impl AuthManager {
    pub closed spec fn wf(&self) -> bool {
        names_distinct(self.users@)
    }

    /// One user, `admin`, with password `admin`.
    pub fn new() -> (r: AuthManager)
        ensures
            r.wf(),
            r@ == Map::<Seq<char>, Seq<char>>::empty().insert("admin"@, "admin"@),
    {
        let mut users: Vec<(String, String)> = Vec::new();
        proof {
            assert(crate::named::named_view(users@) =~= Seq::empty());
            assert(named_map(users@) =~= Map::<Seq<char>, Seq<char>>::empty());
        }
        put_named(&mut users, "admin".to_owned(), "admin".to_owned());
        AuthManager { users }
    }

    /// Whether `username` is a user whose password is `password`.
    pub fn authenticate(&self, username: &str, password: &str) -> (r: bool)
        requires
            self.wf(),
        ensures
            r == (self@.contains_key(username@) && self@[username@] == password@),
    {
        match find_name(&self.users, username) {
            Some(i) => str_eq(self.users[i].1.as_str(), password),
            None => false,
        }
    }
}

} // verus!
