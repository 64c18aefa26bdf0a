//! The binary record format: little-endian 64-bit integers, strings and
//! lists prefixed by a 64-bit length, and records as their fields in order.
use vstd::prelude::*;
use vstd::bytes::{spec_u64_to_le_bytes, spec_u64_from_le_bytes, u64_from_le_bytes, u64_to_le_bytes, lemma_auto_spec_u64_to_from_le_bytes};
use vstd::utf8::{encode_utf8, decode_utf8, valid_utf8, encode_utf8_decode_utf8, encode_utf8_valid_utf8};
use crate::pairs::keys_distinct;
use crate::properties::{Properties, string_pairs};
use crate::pairs::has_key;
use crate::node::Node;
use crate::edge::Edge;
use vstd::slice::{slice_subrange, slice_to_vec};

verus! {

/// The eight little-endian bytes of `x`.
pub open spec fn u64_bytes(x: u64) -> Seq<u8> {
    spec_u64_to_le_bytes(x)
}

/// A string: the length of its UTF-8 bytes, then those bytes.
pub open spec fn str_bytes(s: Seq<char>) -> Seq<u8> {
    u64_bytes(encode_utf8(s).len() as u64) + encode_utf8(s)
}

/// The pairs one after the other, each as its key then its value.
pub open spec fn pairs_body(ps: Seq<(Seq<char>, Seq<char>)>) -> Seq<u8>
    decreases ps.len(),
{
    if ps.len() == 0 {
        Seq::empty()
    } else {
        str_bytes(ps[0].0) + str_bytes(ps[0].1) + pairs_body(ps.drop_first())
    }
}

/// A list of string pairs: its length, then the pairs.
pub open spec fn pairs_bytes(ps: Seq<(Seq<char>, Seq<char>)>) -> Seq<u8> {
    u64_bytes(ps.len() as u64) + pairs_body(ps)
}

/// The ids one after the other.
pub open spec fn ids_body(ids: Seq<u64>) -> Seq<u8>
    decreases ids.len(),
{
    if ids.len() == 0 {
        Seq::empty()
    } else {
        u64_bytes(ids[0]) + ids_body(ids.drop_first())
    }
}

/// A list of ids: its length, then the ids.
pub open spec fn ids_bytes(ids: Seq<u64>) -> Seq<u8> {
    u64_bytes(ids.len() as u64) + ids_body(ids)
}

/// Reads a 64-bit integer.
pub open spec fn parse_u64(b: Seq<u8>) -> Option<(u64, Seq<u8>)> {
    if b.len() >= 8 {
        Some((spec_u64_from_le_bytes(b.take(8)), b.skip(8)))
    } else {
        None
    }
}

/// Reads a string: a length, then that many bytes of valid UTF-8.
pub open spec fn parse_str(b: Seq<u8>) -> Option<(Seq<char>, Seq<u8>)> {
    match parse_u64(b) {
        Some((n, r)) => if n <= r.len() && valid_utf8(r.take(n as int)) {
            Some((decode_utf8(r.take(n as int)), r.skip(n as int)))
        } else {
            None
        },
        None => None,
    }
}

/// Reads `n` string pairs.
pub open spec fn parse_pairs_n(b: Seq<u8>, n: nat) -> Option<(Seq<(Seq<char>, Seq<char>)>, Seq<u8>)>
    decreases n,
{
    if n == 0 {
        Some((Seq::empty(), b))
    } else {
        match parse_str(b) {
            Some((k, r1)) => match parse_str(r1) {
                Some((v, r2)) => match parse_pairs_n(r2, (n - 1) as nat) {
                    Some((ps, r3)) => Some((seq![(k, v)] + ps, r3)),
                    None => None,
                },
                None => None,
            },
            None => None,
        }
    }
}

/// Reads a list of string pairs; the keys must be distinct.
pub open spec fn parse_pairs(b: Seq<u8>) -> Option<(Seq<(Seq<char>, Seq<char>)>, Seq<u8>)> {
    match parse_u64(b) {
        Some((n, r)) => match parse_pairs_n(r, n as nat) {
            Some((ps, r2)) => if keys_distinct(ps) {
                Some((ps, r2))
            } else {
                None
            },
            None => None,
        },
        None => None,
    }
}

/// Reads `n` ids.
pub open spec fn parse_ids_n(b: Seq<u8>, n: nat) -> Option<(Seq<u64>, Seq<u8>)>
    decreases n,
{
    if n == 0 {
        Some((Seq::empty(), b))
    } else {
        match parse_u64(b) {
            Some((x, r1)) => match parse_ids_n(r1, (n - 1) as nat) {
                Some((xs, r2)) => Some((seq![x] + xs, r2)),
                None => None,
            },
            None => None,
        }
    }
}

/// Reads a list of ids.
pub open spec fn parse_ids(b: Seq<u8>) -> Option<(Seq<u64>, Seq<u8>)> {
    match parse_u64(b) {
        Some((n, r)) => parse_ids_n(r, n as nat),
        None => None,
    }
}

/// The string fits the format: its UTF-8 length fits in 64 bits.
pub open spec fn str_fits(s: Seq<char>) -> bool {
    encode_utf8(s).len() <= u64::MAX
}

/// Every string of the pairs fits the format, and so does their number.
pub open spec fn pairs_fit(ps: Seq<(Seq<char>, Seq<char>)>) -> bool {
    &&& ps.len() <= u64::MAX
    &&& forall|i: int| 0 <= i < ps.len() ==> str_fits(#[trigger] ps[i].0) && str_fits(ps[i].1)
}

pub proof fn lemma_u64_round_trip(x: u64, rest: Seq<u8>)
    ensures
        u64_bytes(x).len() == 8,
        parse_u64(u64_bytes(x) + rest) == Some((x, rest)),
{
    lemma_auto_spec_u64_to_from_le_bytes();
    let b = u64_bytes(x) + rest;
    assert(b.take(8) =~= u64_bytes(x));
    assert(b.skip(8) =~= rest);
}

pub proof fn lemma_str_round_trip(s: Seq<char>, rest: Seq<u8>)
    requires
        str_fits(s),
    ensures
        parse_str(str_bytes(s) + rest) == Some((s, rest)),
{
    let e = encode_utf8(s);
    lemma_u64_round_trip(e.len() as u64, e + rest);
    assert(str_bytes(s) + rest =~= u64_bytes(e.len() as u64) + (e + rest));
    assert((e + rest).take(e.len() as int) =~= e);
    assert((e + rest).skip(e.len() as int) =~= rest);
    encode_utf8_valid_utf8(s);
    encode_utf8_decode_utf8(s);
}

#[verifier::rlimit(40)]
pub proof fn lemma_pairs_n_round_trip(ps: Seq<(Seq<char>, Seq<char>)>, rest: Seq<u8>)
    requires
        pairs_fit(ps),
    ensures
        parse_pairs_n(pairs_body(ps) + rest, ps.len()) == Some((ps, rest)),
    decreases ps.len(),
{
    if ps.len() > 0 {
        let tail = ps.drop_first();
        assert(pairs_fit(tail)) by {
            assert forall|i: int| 0 <= i < tail.len() implies str_fits(#[trigger] tail[i].0) && str_fits(tail[i].1) by {
                assert(tail[i] == ps[i + 1]);
            }
        }
        assert(str_fits(ps[0].0) && str_fits(ps[0].1));
        lemma_pairs_n_round_trip(tail, rest);
        let r2 = pairs_body(tail) + rest;
        let r1 = str_bytes(ps[0].1) + r2;
        lemma_str_round_trip(ps[0].0, r1);
        lemma_str_round_trip(ps[0].1, r2);
        assert(pairs_body(ps) + rest =~= str_bytes(ps[0].0) + r1);
        assert(seq![(ps[0].0, ps[0].1)] + tail =~= ps);
    } else {
        assert(pairs_body(ps) + rest =~= rest);
        assert(ps =~= Seq::empty());
    }
}

pub proof fn lemma_pairs_round_trip(ps: Seq<(Seq<char>, Seq<char>)>, rest: Seq<u8>)
    requires
        pairs_fit(ps),
        keys_distinct(ps),
    ensures
        parse_pairs(pairs_bytes(ps) + rest) == Some((ps, rest)),
{
    lemma_pairs_n_round_trip(ps, rest);
    lemma_u64_round_trip(ps.len() as u64, pairs_body(ps) + rest);
    assert(pairs_bytes(ps) + rest =~= u64_bytes(ps.len() as u64) + (pairs_body(ps) + rest));
}

pub proof fn lemma_ids_n_round_trip(ids: Seq<u64>, rest: Seq<u8>)
    ensures
        parse_ids_n(ids_body(ids) + rest, ids.len()) == Some((ids, rest)),
    decreases ids.len(),
{
    if ids.len() > 0 {
        let tail = ids.drop_first();
        lemma_ids_n_round_trip(tail, rest);
        lemma_u64_round_trip(ids[0], ids_body(tail) + rest);
        assert(ids_body(ids) + rest =~= u64_bytes(ids[0]) + (ids_body(tail) + rest));
        assert(seq![ids[0]] + tail =~= ids);
    } else {
        assert(ids_body(ids) + rest =~= rest);
        assert(ids =~= Seq::empty());
    }
}

pub proof fn lemma_ids_round_trip(ids: Seq<u64>, rest: Seq<u8>)
    requires
        ids.len() <= u64::MAX,
    ensures
        parse_ids(ids_bytes(ids) + rest) == Some((ids, rest)),
{
    lemma_ids_n_round_trip(ids, rest);
    lemma_u64_round_trip(ids.len() as u64, ids_body(ids) + rest);
    assert(ids_bytes(ids) + rest =~= u64_bytes(ids.len() as u64) + (ids_body(ids) + rest));
}

proof fn lemma_pairs_body_push(ps: Seq<(Seq<char>, Seq<char>)>, k: Seq<char>, v: Seq<char>)
    ensures
        pairs_body(ps.push((k, v))) == pairs_body(ps) + str_bytes(k) + str_bytes(v),
    decreases ps.len(),
{
    let t = ps.push((k, v));
    if ps.len() == 0 {
        assert(t.drop_first() =~= Seq::<(Seq<char>, Seq<char>)>::empty());
        assert(pairs_body(t.drop_first()) == Seq::<u8>::empty());
        assert(pairs_body(ps) == Seq::<u8>::empty());
        assert(t[0] == (k, v));
        assert(pairs_body(t) =~= pairs_body(ps) + str_bytes(k) + str_bytes(v));
    } else {
        lemma_pairs_body_push(ps.drop_first(), k, v);
        assert(t.drop_first() =~= ps.drop_first().push((k, v)));
        assert(t[0] == ps[0]);
        assert(pairs_body(t) =~= pairs_body(ps) + str_bytes(k) + str_bytes(v));
    }
}

proof fn lemma_ids_body_push(ids: Seq<u64>, x: u64)
    ensures
        ids_body(ids.push(x)) == ids_body(ids) + u64_bytes(x),
    decreases ids.len(),
{
    let t = ids.push(x);
    if ids.len() == 0 {
        assert(t.drop_first() =~= Seq::<u64>::empty());
        assert(ids_body(t.drop_first()) == Seq::<u8>::empty());
        assert(ids_body(ids) == Seq::<u8>::empty());
        assert(t[0] == x);
        assert(ids_body(t) =~= ids_body(ids) + u64_bytes(x));
    } else {
        lemma_ids_body_push(ids.drop_first(), x);
        assert(t.drop_first() =~= ids.drop_first().push(x));
        assert(t[0] == ids[0]);
        assert(ids_body(t) =~= ids_body(ids) + u64_bytes(x));
    }
}

/// Appends `b` to `out`.
fn append_bytes(out: &mut Vec<u8>, b: &[u8])
    ensures
        final(out)@ == old(out)@ + b@,
{
    let n = b.len();
    let mut i: usize = 0;
    while i < n
        invariant
            n == b@.len(),
            i <= n,
            out@ == old(out)@ + b@.take(i as int),
        decreases n - i,
    {
        out.push(b[i]);
        proof {
            assert(b@.take(i + 1) =~= b@.take(i as int).push(b@[i as int]));
        }
        i = i + 1;
    }
    proof {
        assert(b@.take(n as int) =~= b@);
    }
}

pub fn write_u64(out: &mut Vec<u8>, x: u64)
    ensures
        final(out)@ == old(out)@ + u64_bytes(x),
{
    let b = u64_to_le_bytes(x);
    append_bytes(out, b.as_slice());
}

pub fn write_str(out: &mut Vec<u8>, s: &str)
    ensures
        final(out)@ == old(out)@ + str_bytes(s@),
        str_fits(s@),
{
    let b = s.as_bytes();
    let n = b.len();
    write_u64(out, n as u64);
    append_bytes(out, b);
    proof {
        assert(final(out)@ =~= old(out)@ + str_bytes(s@));
    }
}

pub fn write_properties(out: &mut Vec<u8>, p: &Properties)
    ensures
        final(out)@ == old(out)@ + pairs_bytes(p.pairs()),
        pairs_fit(p.pairs()),
{
    let entries = p.entries();
    let n = entries.len();
    write_u64(out, n as u64);
    let ghost start = out@;
    let mut i: usize = 0;
    while i < n
        invariant
            n == entries@.len(),
            string_pairs(entries@) == p.pairs(),
            i <= n,
            out@ == start + pairs_body(p.pairs().take(i as int)),
            start == old(out)@ + u64_bytes(n as u64),
            forall|j: int| 0 <= j < i ==> str_fits(#[trigger] p.pairs()[j].0) && str_fits(p.pairs()[j].1),
        decreases n - i,
    {
        let ghost before = out@;
        write_str(out, entries[i].0.as_str());
        write_str(out, entries[i].1.as_str());
        proof {
            let ps = p.pairs();
            assert(ps[i as int] == (entries@[i as int].0@, entries@[i as int].1@));
            assert(str_fits(ps[i as int].0) && str_fits(ps[i as int].1));
            assert forall|j: int| 0 <= j < i + 1 implies str_fits(#[trigger] p.pairs()[j].0) && str_fits(p.pairs()[j].1) by {
                if j < i {
                    assert(str_fits(p.pairs()[j].0));
                }
            }
            assert(ps.take(i + 1) =~= ps.take(i as int).push(ps[i as int]));
            lemma_pairs_body_push(ps.take(i as int), ps[i as int].0, ps[i as int].1);
            assert(out@ =~= start + pairs_body(ps.take(i + 1)));
        }
        i = i + 1;
    }
    proof {
        assert(p.pairs().take(n as int) =~= p.pairs());
        assert(p.pairs().len() == n);
        assert(i == n);
        assert(n as int <= u64::MAX);
        assert forall|j: int| 0 <= j < p.pairs().len() implies str_fits(#[trigger] p.pairs()[j].0) && str_fits(
            p.pairs()[j].1,
        ) by {
            assert(j < i);
        }
        assert(final(out)@ =~= old(out)@ + pairs_bytes(p.pairs()));
        assert(pairs_fit(p.pairs()));
    }
}

pub fn write_ids(out: &mut Vec<u8>, ids: &Vec<u64>)
    ensures
        final(out)@ == old(out)@ + ids_bytes(ids@),
{
    let n = ids.len();
    write_u64(out, n as u64);
    let ghost start = out@;
    let mut i: usize = 0;
    while i < n
        invariant
            n == ids@.len(),
            i <= n,
            out@ == start + ids_body(ids@.take(i as int)),
            start == old(out)@ + u64_bytes(n as u64),
        decreases n - i,
    {
        write_u64(out, ids[i]);
        proof {
            assert(ids@.take(i + 1) =~= ids@.take(i as int).push(ids@[i as int]));
            lemma_ids_body_push(ids@.take(i as int), ids@[i as int]);
            assert(out@ =~= start + ids_body(ids@.take(i + 1)));
        }
        i = i + 1;
    }
    proof {
        assert(ids@.take(n as int) =~= ids@);
        assert(final(out)@ =~= old(out)@ + ids_bytes(ids@));
    }
}

/// Relies on `String::from_utf8`: it accepts exactly the byte vectors that
/// are valid UTF-8, and then returns the string that they encode.
#[verifier::external_body]
fn string_from_utf8(bytes: Vec<u8>) -> (r: Option<String>)
    ensures
        match r {
            Some(s) => valid_utf8(bytes@) && s@ == decode_utf8(bytes@),
            None => !valid_utf8(bytes@),
        },
{
    String::from_utf8(bytes).ok()
}

/// Reads a 64-bit integer at `pos`; on success also returns the position after it.
pub fn read_u64(b: &[u8], pos: usize) -> (r: Option<(u64, usize)>)
    requires
        pos <= b@.len(),
    ensures
        match r {
            Some((x, q)) => q <= b@.len() && parse_u64(b@.skip(pos as int)) == Some(
                (x, b@.skip(q as int)),
            ),
            None => parse_u64(b@.skip(pos as int)) is None,
        },
{
    if b.len() - pos < 8 {
        return None;
    }
    let x = u64_from_le_bytes(slice_subrange(b, pos, pos + 8));
    proof {
        assert(b@.skip(pos as int).take(8) =~= b@.subrange(pos as int, pos + 8));
        assert(b@.skip(pos as int).skip(8) =~= b@.skip(pos + 8));
    }
    Some((x, pos + 8))
}

/// Reads a string at `pos`; on success also returns the position after it.
pub fn read_string(b: &[u8], pos: usize) -> (r: Option<(String, usize)>)
    requires
        pos <= b@.len(),
    ensures
        match r {
            Some((s, q)) => q <= b@.len() && parse_str(b@.skip(pos as int)) == Some(
                (s@, b@.skip(q as int)),
            ),
            None => parse_str(b@.skip(pos as int)) is None,
        },
{
    let (n, p) = match read_u64(b, pos) {
        Some(x) => x,
        None => {
            return None;
        },
    };
    if n > (b.len() - p) as u64 {
        return None;
    }
    let end = p + n as usize;
    let bytes = slice_to_vec(slice_subrange(b, p, end));
    let ghost rest = b@.skip(p as int);
    proof {
        assert(rest.take(n as int) =~= bytes@);
        assert(rest.skip(n as int) =~= b@.skip(end as int));
    }
    match string_from_utf8(bytes) {
        Some(s) => Some((s, end)),
        None => None,
    }
}

/// The pairs read by `parse_pairs_n`, after `items`.
pub open spec fn after(items: Seq<(Seq<char>, Seq<char>)>, o: Option<(Seq<(Seq<char>, Seq<char>)>, Seq<u8>)>) -> Option<(Seq<(Seq<char>, Seq<char>)>, Seq<u8>)> {
    match o {
        Some((ps, r)) => Some((items + ps, r)),
        None => None,
    }
}

/// Reads a list of string pairs at `pos` into properties; fails when a key repeats.
#[verifier::rlimit(60)]
pub fn read_properties(b: &[u8], pos: usize) -> (r: Option<(Properties, usize)>)
    requires
        pos <= b@.len(),
    ensures
        match r {
            Some((p, q)) => q <= b@.len() && parse_pairs(b@.skip(pos as int)) == Some(
                (p.pairs(), b@.skip(q as int)),
            ),
            None => parse_pairs(b@.skip(pos as int)) is None,
        },
{
    let (n, p0) = match read_u64(b, pos) {
        Some(x) => x,
        None => {
            return None;
        },
    };
    let mut props = Properties::new();
    let mut p = p0;
    let mut i: u64 = 0;
    while i < n
        invariant
            p <= b@.len(),
            i <= n,
            parse_u64(b@.skip(pos as int)) == Some((n, b@.skip(p0 as int))),
            keys_distinct(props.pairs()),
            props.pairs().len() == i,
            parse_pairs_n(b@.skip(p0 as int), n as nat) == after(
                props.pairs(),
                parse_pairs_n(b@.skip(p as int), (n - i) as nat),
            ),
        decreases n - i,
    {
        let ghost items = props.pairs();
        let (k, p1) = match read_string(b, p) {
            Some(x) => x,
            None => {
                return None;
            },
        };
        let (v, p2) = match read_string(b, p1) {
            Some(x) => x,
            None => {
                return None;
            },
        };
        if props.contains_key(k.as_str()) {
            proof {
                props.lemma_pairs();
                assert(has_key(items, k@));
                let j = choose|j: int| 0 <= j < items.len() && #[trigger] items[j].0 == k@;
                match parse_pairs_n(b@.skip(p0 as int), n as nat) {
                    Some((all, _)) => {
                        match parse_pairs_n(b@.skip(p2 as int), (n - i - 1) as nat) {
                            Some((ps, _)) => {
                                assert(all =~= items + (seq![(k@, v@)] + ps));
                                assert(all[j].0 == all[i as int].0);
                            },
                            None => {},
                        }
                    },
                    None => {},
                }
            }
            return None;
        }
        let ghost kv = k@;
        let ghost vv = v@;
        proof {
            props.lemma_pairs();
            assert(!has_key(items, kv));
        }
        props.insert(k, v);
        proof {
            props.lemma_pairs();
            assert(props.pairs() == items.push((kv, vv)));
            assert forall|a: int, c: int|
                0 <= a < props.pairs().len() && 0 <= c < props.pairs().len() && a != c implies #[trigger] props.pairs()[a].0
                != #[trigger] props.pairs()[c].0 by {
                if a < items.len() && c < items.len() {
                    assert(props.pairs()[a] == items[a] && props.pairs()[c] == items[c]);
                } else if a < items.len() {
                    assert(props.pairs()[a] == items[a]);
                    assert(!(items[a].0 == kv));
                } else if c < items.len() {
                    assert(props.pairs()[c] == items[c]);
                    assert(!(items[c].0 == kv));
                }
            }
            match parse_pairs_n(b@.skip(p2 as int), (n - i - 1) as nat) {
                Some((ps, _)) => {
                    assert(items + (seq![(kv, vv)] + ps) =~= items.push((kv, vv)) + ps);
                },
                None => {},
            }
        }
        p = p2;
        i = i + 1;
    }
    proof {
        assert(props.pairs() + Seq::<(Seq<char>, Seq<char>)>::empty() =~= props.pairs());
    }
    Some((props, p))
}

/// The ids read by `parse_ids_n`, after `items`.
pub open spec fn after_ids(items: Seq<u64>, o: Option<(Seq<u64>, Seq<u8>)>) -> Option<(Seq<u64>, Seq<u8>)> {
    match o {
        Some((xs, r)) => Some((items + xs, r)),
        None => None,
    }
}

/// Reads a list of ids at `pos`.
pub fn read_ids(b: &[u8], pos: usize) -> (r: Option<(Vec<u64>, usize)>)
    requires
        pos <= b@.len(),
    ensures
        match r {
            Some((ids, q)) => q <= b@.len() && parse_ids(b@.skip(pos as int)) == Some(
                (ids@, b@.skip(q as int)),
            ),
            None => parse_ids(b@.skip(pos as int)) is None,
        },
{
    let (n, p0) = match read_u64(b, pos) {
        Some(x) => x,
        None => {
            return None;
        },
    };
    let mut ids: Vec<u64> = Vec::new();
    let mut p = p0;
    let mut i: u64 = 0;
    while i < n
        invariant
            p <= b@.len(),
            i <= n,
            parse_u64(b@.skip(pos as int)) == Some((n, b@.skip(p0 as int))),
            ids@.len() == i,
            parse_ids_n(b@.skip(p0 as int), n as nat) == after_ids(
                ids@,
                parse_ids_n(b@.skip(p as int), (n - i) as nat),
            ),
        decreases n - i,
    {
        let ghost items = ids@;
        let (x, p1) = match read_u64(b, p) {
            Some(x) => x,
            None => {
                return None;
            },
        };
        ids.push(x);
        proof {
            match parse_ids_n(b@.skip(p1 as int), (n - i - 1) as nat) {
                Some((xs, _)) => {
                    assert(items + (seq![x] + xs) =~= ids@ + xs);
                },
                None => {},
            }
        }
        p = p1;
        i = i + 1;
    }
    proof {
        assert(ids@ + Seq::<u64>::empty() =~= ids@);
    }
    Some((ids, p))
}

/// A node record: id, label, properties.
pub open spec fn node_bytes(id: u64, label: Seq<char>, ps: Seq<(Seq<char>, Seq<char>)>) -> Seq<u8> {
    u64_bytes(id) + str_bytes(label) + pairs_bytes(ps)
}

/// Reads a node record, ignoring what follows it.
pub open spec fn parse_node(b: Seq<u8>) -> Option<(u64, Seq<char>, Seq<(Seq<char>, Seq<char>)>)> {
    match parse_u64(b) {
        Some((id, r1)) => match parse_str(r1) {
            Some((label, r2)) => match parse_pairs(r2) {
                Some((ps, _)) => Some((id, label, ps)),
                None => None,
            },
            None => None,
        },
        None => None,
    }
}

/// An edge record: id, label, from, to, properties.
pub open spec fn edge_bytes(id: u64, label: Seq<char>, from: u64, to: u64, ps: Seq<(Seq<char>, Seq<char>)>) -> Seq<u8> {
    u64_bytes(id) + str_bytes(label) + u64_bytes(from) + u64_bytes(to) + pairs_bytes(ps)
}

/// Reads an edge record, ignoring what follows it.
pub open spec fn parse_edge(b: Seq<u8>) -> Option<(u64, Seq<char>, u64, u64, Seq<(Seq<char>, Seq<char>)>)> {
    match parse_u64(b) {
        Some((id, r1)) => match parse_str(r1) {
            Some((label, r2)) => match parse_u64(r2) {
                Some((from, r3)) => match parse_u64(r3) {
                    Some((to, r4)) => match parse_pairs(r4) {
                        Some((ps, _)) => Some((id, label, from, to, ps)),
                        None => None,
                    },
                    None => None,
                },
                None => None,
            },
            None => None,
        },
        None => None,
    }
}

/// The record of a node.
pub open spec fn node_record(n: Node) -> Seq<u8> {
    node_bytes(n.id, n.label@, n.properties.pairs())
}

/// The record of an edge.
pub open spec fn edge_record(e: Edge) -> Seq<u8> {
    edge_bytes(e.id, e.label@, e.from, e.to, e.properties.pairs())
}

/// The node's strings and property count fit the format.
pub open spec fn node_fits(n: Node) -> bool {
    str_fits(n.label@) && pairs_fit(n.properties.pairs()) && keys_distinct(n.properties.pairs())
}

/// The edge's strings and property count fit the format.
pub open spec fn edge_fits(e: Edge) -> bool {
    str_fits(e.label@) && pairs_fit(e.properties.pairs()) && keys_distinct(e.properties.pairs())
}

/// The record of a node.
pub fn encode_node(n: &Node) -> (r: Vec<u8>)
    ensures
        r@ == node_record(*n),
        node_fits(*n),
{
    let mut out: Vec<u8> = Vec::new();
    write_u64(&mut out, n.id);
    write_str(&mut out, n.label.as_str());
    write_properties(&mut out, &n.properties);
    let _ = n.properties.entries();
    proof {
        assert(out@ =~= node_record(*n));
    }
    out
}

/// The record of an edge.
pub fn encode_edge(e: &Edge) -> (r: Vec<u8>)
    ensures
        r@ == edge_record(*e),
        edge_fits(*e),
{
    let mut out: Vec<u8> = Vec::new();
    write_u64(&mut out, e.id);
    write_str(&mut out, e.label.as_str());
    write_u64(&mut out, e.from);
    write_u64(&mut out, e.to);
    write_properties(&mut out, &e.properties);
    let _ = e.properties.entries();
    proof {
        assert(out@ =~= edge_record(*e));
    }
    out
}

/// Reads the node record at the start of `b`.
pub fn decode_node(b: &[u8]) -> (r: Option<Node>)
    ensures
        match r {
            Some(n) => parse_node(b@) == Some((n.id, n.label@, n.properties.pairs())),
            None => parse_node(b@) is None,
        },
{
    proof {
        assert(b@.skip(0) =~= b@);
    }
    let (id, p1) = match read_u64(b, 0) {
        Some(x) => x,
        None => {
            return None;
        },
    };
    let (label, p2) = match read_string(b, p1) {
        Some(x) => x,
        None => {
            return None;
        },
    };
    let (properties, _) = match read_properties(b, p2) {
        Some(x) => x,
        None => {
            return None;
        },
    };
    Some(Node::new(id, label, properties))
}

/// Reads the edge record at the start of `b`.
pub fn decode_edge(b: &[u8]) -> (r: Option<Edge>)
    ensures
        match r {
            Some(e) => parse_edge(b@) == Some((e.id, e.label@, e.from, e.to, e.properties.pairs())),
            None => parse_edge(b@) is None,
        },
{
    proof {
        assert(b@.skip(0) =~= b@);
    }
    let (id, p1) = match read_u64(b, 0) {
        Some(x) => x,
        None => {
            return None;
        },
    };
    let (label, p2) = match read_string(b, p1) {
        Some(x) => x,
        None => {
            return None;
        },
    };
    let (from, p3) = match read_u64(b, p2) {
        Some(x) => x,
        None => {
            return None;
        },
    };
    let (to, p4) = match read_u64(b, p3) {
        Some(x) => x,
        None => {
            return None;
        },
    };
    let (properties, _) = match read_properties(b, p4) {
        Some(x) => x,
        None => {
            return None;
        },
    };
    Some(Edge::new(id, label, from, to, properties))
}

/// Decoding the record of a node, with anything after it, gives the node back.
pub proof fn lemma_node_round_trip(n: Node, padding: Seq<u8>)
    requires
        node_fits(n),
    ensures
        parse_node(node_record(n) + padding) == Some((n.id, n.label@, n.properties.pairs())),
{
    let ps = n.properties.pairs();
    lemma_pairs_round_trip(ps, padding);
    lemma_str_round_trip(n.label@, pairs_bytes(ps) + padding);
    lemma_u64_round_trip(n.id, str_bytes(n.label@) + pairs_bytes(ps) + padding);
    assert(node_record(n) + padding =~= u64_bytes(n.id) + (str_bytes(n.label@) + (pairs_bytes(ps) + padding)));
    assert(str_bytes(n.label@) + pairs_bytes(ps) + padding =~= str_bytes(n.label@) + (pairs_bytes(ps) + padding));
}

/// Decoding the record of an edge, with anything after it, gives the edge back.
#[verifier::rlimit(40)]
pub proof fn lemma_edge_round_trip(e: Edge, padding: Seq<u8>)
    requires
        edge_fits(e),
    ensures
        parse_edge(edge_record(e) + padding) == Some((e.id, e.label@, e.from, e.to, e.properties.pairs())),
{
    let ps = e.properties.pairs();
    let r4 = pairs_bytes(ps) + padding;
    let r3 = u64_bytes(e.to) + r4;
    let r2 = u64_bytes(e.from) + r3;
    let r1 = str_bytes(e.label@) + r2;
    lemma_pairs_round_trip(ps, padding);
    lemma_u64_round_trip(e.to, r4);
    lemma_u64_round_trip(e.from, r3);
    lemma_str_round_trip(e.label@, r2);
    lemma_u64_round_trip(e.id, r1);
    let b = edge_record(e) + padding;
    assert(b =~= u64_bytes(e.id) + r1);
    assert(parse_u64(b) == Some((e.id, r1)));
    assert(parse_str(r1) == Some((e.label@, r2)));
    assert(parse_u64(r2) == Some((e.from, r3)));
    assert(parse_u64(r3) == Some((e.to, r4)));
    assert(parse_pairs(r4) == Some((ps, padding)));
}

/// What a file header says.
pub struct HeaderView {
    pub name: Seq<char>,
    pub next_node_id: u64,
    pub next_edge_id: u64,
    pub node_count: u64,
    pub edge_count: u64,
    pub first_node_position: u64,
    pub first_edge_position: u64,
    pub deleted_nodes: Seq<u64>,
    pub deleted_edges: Seq<u64>,
}

/// The header of a graph file: the graph's name and allocator, where the
/// node and edge slots are, and the ids marked deleted.
#[derive(Debug)]
pub struct GraphHeader {
    pub name: String,
    pub next_node_id: u64,
    pub next_edge_id: u64,
    pub node_count: u64,
    pub edge_count: u64,
    pub first_node_position: u64,
    pub first_edge_position: u64,
    pub deleted_nodes: Vec<u64>,
    pub deleted_edges: Vec<u64>,
}

impl View for GraphHeader {
    type V = HeaderView;

    open spec fn view(&self) -> HeaderView {
        HeaderView {
            name: self.name@,
            next_node_id: self.next_node_id,
            next_edge_id: self.next_edge_id,
            node_count: self.node_count,
            edge_count: self.edge_count,
            first_node_position: self.first_node_position,
            first_edge_position: self.first_edge_position,
            deleted_nodes: self.deleted_nodes@,
            deleted_edges: self.deleted_edges@,
        }
    }
}

/// The header record: its fields in order.
pub open spec fn header_bytes(h: HeaderView) -> Seq<u8> {
    str_bytes(h.name) + u64_bytes(h.next_node_id) + u64_bytes(h.next_edge_id) + u64_bytes(h.node_count)
        + u64_bytes(h.edge_count) + u64_bytes(h.first_node_position) + u64_bytes(
        h.first_edge_position,
    ) + ids_bytes(h.deleted_nodes) + ids_bytes(h.deleted_edges)
}

/// Reads a header record, ignoring what follows it.
#[verifier::opaque]
pub open spec fn parse_header(b: Seq<u8>) -> Option<HeaderView> {
    match parse_str(b) {
        Some((name, r0)) => match parse_u64(r0) {
            Some((a, r1)) => match parse_u64(r1) {
                Some((c, r2)) => match parse_u64(r2) {
                    Some((d, r3)) => match parse_u64(r3) {
                        Some((e, r4)) => match parse_u64(r4) {
                            Some((f, r5)) => match parse_u64(r5) {
                                Some((g, r6)) => match parse_ids(r6) {
                                    Some((dn, r7)) => match parse_ids(r7) {
                                        Some((de, _)) => Some(
                                            HeaderView {
                                                name,
                                                next_node_id: a,
                                                next_edge_id: c,
                                                node_count: d,
                                                edge_count: e,
                                                first_node_position: f,
                                                first_edge_position: g,
                                                deleted_nodes: dn,
                                                deleted_edges: de,
                                            },
                                        ),
                                        None => None,
                                    },
                                    None => None,
                                },
                                None => None,
                            },
                            None => None,
                        },
                        None => None,
                    },
                    None => None,
                },
                None => None,
            },
            None => None,
        },
        None => None,
    }
}

/// The header's name and tombstone lists fit the format.
pub open spec fn header_fits(h: HeaderView) -> bool {
    str_fits(h.name) && h.deleted_nodes.len() <= u64::MAX && h.deleted_edges.len() <= u64::MAX
}

/// Decoding a header record, with anything after it, gives the header back.
#[verifier::rlimit(40)]
pub proof fn lemma_header_round_trip(h: HeaderView, padding: Seq<u8>)
    requires
        header_fits(h),
    ensures
        parse_header(header_bytes(h) + padding) == Some(h),
{
    let r8 = padding;
    let r7 = ids_bytes(h.deleted_edges) + r8;
    let r6 = ids_bytes(h.deleted_nodes) + r7;
    let r5 = u64_bytes(h.first_edge_position) + r6;
    let r4 = u64_bytes(h.first_node_position) + r5;
    let r3 = u64_bytes(h.edge_count) + r4;
    let r2 = u64_bytes(h.node_count) + r3;
    let r1 = u64_bytes(h.next_edge_id) + r2;
    let r0 = u64_bytes(h.next_node_id) + r1;
    lemma_ids_round_trip(h.deleted_edges, r8);
    lemma_ids_round_trip(h.deleted_nodes, r7);
    lemma_u64_round_trip(h.first_edge_position, r6);
    lemma_u64_round_trip(h.first_node_position, r5);
    lemma_u64_round_trip(h.edge_count, r4);
    lemma_u64_round_trip(h.node_count, r3);
    lemma_u64_round_trip(h.next_edge_id, r2);
    lemma_u64_round_trip(h.next_node_id, r1);
    lemma_str_round_trip(h.name, r0);
    let b = header_bytes(h) + padding;
    assert(b =~= str_bytes(h.name) + r0);
    assert(parse_str(b) == Some((h.name, r0)));
    reveal(parse_header);
}

/// The record of a header.
pub fn encode_header(h: &GraphHeader) -> (r: Vec<u8>)
    ensures
        r@ == header_bytes(h@),
        header_fits(h@),
{
    let mut out: Vec<u8> = Vec::new();
    write_str(&mut out, h.name.as_str());
    write_u64(&mut out, h.next_node_id);
    write_u64(&mut out, h.next_edge_id);
    write_u64(&mut out, h.node_count);
    write_u64(&mut out, h.edge_count);
    write_u64(&mut out, h.first_node_position);
    write_u64(&mut out, h.first_edge_position);
    write_ids(&mut out, &h.deleted_nodes);
    write_ids(&mut out, &h.deleted_edges);
    let _ = h.deleted_nodes.len();
    let _ = h.deleted_edges.len();
    proof {
        assert(out@ =~= header_bytes(h@));
    }
    out
}

/// Reads the header record at the start of `b`.
#[verifier::rlimit(60)]
pub fn decode_header(b: &[u8]) -> (r: Option<GraphHeader>)
    ensures
        match r {
            Some(h) => parse_header(b@) == Some(h@),
            None => parse_header(b@) is None,
        },
{
    proof {
        assert(b@.skip(0) =~= b@);
        reveal(parse_header);
    }
    let (name, p0) = match read_string(b, 0) {
        Some(x) => x,
        None => {
            return None;
        },
    };
    let (next_node_id, p1) = match read_u64(b, p0) {
        Some(x) => x,
        None => {
            return None;
        },
    };
    let (next_edge_id, p2) = match read_u64(b, p1) {
        Some(x) => x,
        None => {
            return None;
        },
    };
    let (node_count, p3) = match read_u64(b, p2) {
        Some(x) => x,
        None => {
            return None;
        },
    };
    let (edge_count, p4) = match read_u64(b, p3) {
        Some(x) => x,
        None => {
            return None;
        },
    };
    let (first_node_position, p5) = match read_u64(b, p4) {
        Some(x) => x,
        None => {
            return None;
        },
    };
    let (first_edge_position, p6) = match read_u64(b, p5) {
        Some(x) => x,
        None => {
            return None;
        },
    };
    let (deleted_nodes, p7) = match read_ids(b, p6) {
        Some(x) => x,
        None => {
            return None;
        },
    };
    let (deleted_edges, _) = match read_ids(b, p7) {
        Some(x) => x,
        None => {
            return None;
        },
    };
    let h = GraphHeader {
        name,
        next_node_id,
        next_edge_id,
        node_count,
        edge_count,
        first_node_position,
        first_edge_position,
        deleted_nodes,
        deleted_edges,
    };
    proof {
        reveal(parse_header);
        assert(parse_header(b@) == Some(h@));
    }
    Some(h)
}

} // verus!
