//! Path search over adjacency lists: breadth-first, depth-first and
//! weighted shortest path.
use vstd::prelude::*;
use crate::edge::{Edge, EdgeView};
use crate::graph::{adjacency_of, Graph};
use crate::text::{decimal_of, parse_decimal};
use vstd::utf8::encode_utf8;
use crate::groups::{group_view, list_view};
use crate::pairs::{keys_distinct, map_of_pairs, lemma_lookup, lemma_key_index};

verus! {

/// The ids that the edges out of `n` lead to.
pub open spec fn neighbors(adj: Map<u64, Seq<u64>>, n: u64) -> Seq<u64> {
    if adj.contains_key(n) {
        adj[n]
    } else {
        Seq::empty()
    }
}

/// `p` walks from `start` to `goal` along edges of `adj`.
pub open spec fn is_path(adj: Map<u64, Seq<u64>>, p: Seq<u64>, start: u64, goal: u64) -> bool {
    &&& p.len() > 0
    &&& p[0] == start
    &&& p.last() == goal
    &&& forall|i: int| 0 <= i < p.len() - 1 ==> #[trigger] neighbors(adj, p[i]).contains(p[i + 1])
}

/// Some path leads from `start` to `goal`.
pub open spec fn reachable(adj: Map<u64, Seq<u64>>, start: u64, goal: u64) -> bool {
    exists|p: Seq<u64>| is_path(adj, p, start, goal)
}

/// What a search returns: a path from `start` to `goal`, or nothing when
/// there is none; `[start]` when the two are the same.
pub open spec fn search_result(adj: Map<u64, Seq<u64>>, r: Seq<u64>, start: u64, goal: u64) -> bool {
    &&& r.len() == 0 <==> !reachable(adj, start, goal)
    &&& r.len() > 0 ==> is_path(adj, r, start, goal)
    &&& start == goal ==> r == seq![start]
}

/// A set of ids closed under `adj` that holds `start` and not `goal`
/// shows that `goal` cannot be reached.
pub proof fn lemma_closed_set_blocks(adj: Map<u64, Seq<u64>>, seen: Seq<u64>, start: u64, goal: u64)
    requires
        seen.contains(start),
        !seen.contains(goal),
        forall|x: u64, y: u64|
            seen.contains(x) && #[trigger] neighbors(adj, x).contains(y) ==> #[trigger] seen.contains(y),
    ensures
        !reachable(adj, start, goal),
{
    assert forall|p: Seq<u64>| !is_path(adj, p, start, goal) by {
        if is_path(adj, p, start, goal) {
            assert forall|k: int| 0 <= k < p.len() implies seen.contains(#[trigger] p[k]) by {
                lemma_path_prefix_in(adj, seen, p, k);
            }
            assert(seen.contains(p[p.len() - 1]));
        }
    }
}

proof fn lemma_path_prefix_in(adj: Map<u64, Seq<u64>>, seen: Seq<u64>, p: Seq<u64>, k: int)
    requires
        0 <= k < p.len(),
        seen.contains(p[0]),
        forall|i: int| 0 <= i < p.len() - 1 ==> #[trigger] neighbors(adj, p[i]).contains(p[i + 1]),
        forall|x: u64, y: u64|
            seen.contains(x) && #[trigger] neighbors(adj, x).contains(y) ==> #[trigger] seen.contains(y),
    ensures
        seen.contains(p[k]),
    decreases k,
{
    if k > 0 {
        lemma_path_prefix_in(adj, seen, p, k - 1);
        assert(neighbors(adj, p[k - 1]).contains(p[k - 1 + 1]));
    }
}

/// The position of the group of `n` in `adj`, if it has one.
fn find_group(adj: &Vec<(u64, Vec<u64>)>, n: u64) -> (r: Option<usize>)
    requires
        keys_distinct(group_view(adj@)),
    ensures
        match r {
            Some(i) => i < adj@.len() && adj@[i as int].0 == n && adj@[i as int].1@ == neighbors(
                map_of_pairs(group_view(adj@)),
                n,
            ),
            None => neighbors(map_of_pairs(group_view(adj@)), n) == Seq::<u64>::empty(),
        },
{
    let len = adj.len();
    let mut i: usize = 0;
    while i < len
        invariant
            len == adj@.len(),
            i <= len,
            keys_distinct(group_view(adj@)),
            forall|j: int| 0 <= j < i ==> #[trigger] adj@[j].0 != n,
        decreases len - i,
    {
        if adj[i].0 == n {
            proof {
                lemma_lookup(group_view(adj@), i as int);
                assert(list_view(adj@[i as int].1@) =~= adj@[i as int].1@);
            }
            return Some(i);
        }
        i = i + 1;
    }
    proof {
        if map_of_pairs(group_view(adj@)).contains_key(n) {
            let j = lemma_key_index(group_view(adj@), n);
            assert(adj@[j].0 == n);
        }
    }
    None
}

/// Whether `v` occurs in `s`.
pub(crate) fn contains_id(s: &Vec<u64>, v: u64) -> (r: bool)
    ensures
        r == s@.contains(v),
{
    let n = s.len();
    let mut i: usize = 0;
    while i < n
        invariant
            n == s@.len(),
            i <= n,
            forall|j: int| 0 <= j < i ==> s@[j] != v,
        decreases n - i,
    {
        if s[i] == v {
            return true;
        }
        i = i + 1;
    }
    false
}

/// The discovery record of a search: `order[0]` is the start, and each other
/// discovered id was reached by an edge from the id at its parent's position.
pub open spec fn discovery_tree(adj: Map<u64, Seq<u64>>, order: Seq<u64>, parent: Seq<usize>, start: u64) -> bool {
    &&& order.len() == parent.len()
    &&& order.len() > 0
    &&& order[0] == start
    &&& forall|i: int|
        0 < i < order.len() ==> (#[trigger] parent[i] as int) < i && neighbors(adj, order[parent[i] as int]).contains(order[i])
}

/// Position `i` of `order` is off the frontier: it is not the goal, and all
/// its neighbours have been discovered.
pub open spec fn expanded(adj: Map<u64, Seq<u64>>, order: Seq<u64>, i: int, goal: u64) -> bool {
    &&& order[i] != goal
    &&& forall|y: u64| #[trigger] neighbors(adj, order[i]).contains(y) ==> order.contains(y)
}

spec fn old_last(s: Seq<usize>) -> usize {
    s[s.len() - 1]
}

/// Follows parents from position `idx` back to the start.
#[verifier::rlimit(60)]
fn build_path(order: &Vec<u64>, parent: &Vec<usize>, idx: usize, Ghost(adj): Ghost<Map<u64, Seq<u64>>>) -> (r: Vec<u64>)
    requires
        discovery_tree(adj, order@, parent@, order@[0]),
        idx < order@.len(),
    ensures
        is_path(adj, r@, order@[0], order@[idx as int]),
{
    let mut path: Vec<u64> = Vec::new();
    path.push(order[idx]);
    let mut cur = idx;
    while cur > 0
        invariant
            discovery_tree(adj, order@, parent@, order@[0]),
            cur < order@.len(),
            idx < order@.len(),
            is_path(adj, path@, order@[cur as int], order@[idx as int]),
        decreases cur,
    {
        let p = parent[cur];
        let ghost old_path = path@;
        path.insert(0, order[p]);
        proof {
            assert forall|i: int| 0 <= i < path@.len() - 1 implies #[trigger] neighbors(adj, path@[i]).contains(path@[i + 1]) by {
                if i > 0 {
                    assert(path@[i] == old_path[i - 1] && path@[i + 1] == old_path[i]);
                    assert(neighbors(adj, old_path[i - 1]).contains(old_path[i - 1 + 1]));
                }
            }
        }
        cur = p;
    }
    path
}

/// Searches from `start` for `goal`, expanding the oldest discovered id first
/// when `depth_first` is false and the newest when it is true.
#[verifier::rlimit(60)]
pub fn search(adj: &Vec<(u64, Vec<u64>)>, start: u64, goal: u64, depth_first: bool) -> (r: Vec<u64>)
    requires
        keys_distinct(group_view(adj@)),
    ensures
        search_result(map_of_pairs(group_view(adj@)), r@, start, goal),
{
    let ghost m = map_of_pairs(group_view(adj@));
    if start == goal {
        let r = vec![start];
        proof {
            assert(r@ =~= seq![start]);
            assert(is_path(m, r@, start, goal));
            assert(reachable(m, start, goal));
        }
        return r;
    }
    let mut order: Vec<u64> = vec![start];
    let mut parent: Vec<usize> = vec![0];
    let mut frontier: Vec<usize> = vec![0];
    let mut head: usize = 0;
    proof {
        assert(frontier@.subrange(0, 1) =~= seq![0usize]);
        assert(frontier@.subrange(0, 1)[0] == 0usize);
    }
    while head < frontier.len()
        invariant
            keys_distinct(group_view(adj@)),
            m == map_of_pairs(group_view(adj@)),
            start != goal,
            discovery_tree(m, order@, parent@, start),
            order@.len() <= usize::MAX,
            head <= frontier@.len(),
            forall|a: int, b: int|
                head <= a < b < frontier@.len() ==> #[trigger] frontier@[a] < #[trigger] frontier@[b],
            forall|a: int| head <= a < frontier@.len() ==> #[trigger] frontier@[a] < order@.len(),
            forall|i: int|
                #![trigger order@[i]]
                0 <= i < order@.len() && !frontier@.subrange(head as int, frontier@.len() as int).contains(
                    i as usize,
                ) ==> expanded(m, order@, i, goal),
        decreases usize::MAX - order@.len(), frontier@.len() - head,
    {
        let ghost len0 = order@.len();
        let ghost active0 = frontier@.subrange(head as int, frontier@.len() as int);
        let idx: usize;
        if depth_first {
            idx = frontier.pop().unwrap();
        } else {
            idx = frontier[head];
            head = head + 1;
        }
        let ghost active1 = frontier@.subrange(head as int, frontier@.len() as int);
        proof {
            // the popped position leaves the frontier; every other stays as it was
            assert forall|i: usize| #[trigger] active1.contains(i) <==> active0.contains(i) && i != idx by {
                if active1.contains(i) {
                    let a = choose|a: int| 0 <= a < active1.len() && active1[a] == i;
                    if depth_first {
                        assert(active0[a] == i);
                        assert(active0[active0.len() - 1] == idx);
                        assert(frontier@[head as int + a] < old_last(active0));
                    } else {
                        assert(active0[a + 1] == i);
                        assert(active0[0] == idx);
                    }
                }
                if active0.contains(i) && i != idx {
                    let a = choose|a: int| 0 <= a < active0.len() && active0[a] == i;
                    if depth_first {
                        assert(a != active0.len() - 1);
                        assert(active1[a] == i);
                    } else {
                        assert(a != 0);
                        assert(active1[a - 1] == i);
                    }
                }
            }
        }
        let u = order[idx];
        if u == goal {
            let r = build_path(&order, &parent, idx, Ghost(m));
            proof {
                assert(reachable(m, start, goal));
            }
            return r;
        }
        match find_group(adj, u) {
            Some(gi) => {
                let nb = &adj[gi].1;
                let k = nb.len();
                let mut j: usize = 0;
                while j < k
                    invariant
                        keys_distinct(group_view(adj@)),
                        m == map_of_pairs(group_view(adj@)),
                        start != goal,
                        k == nb@.len(),
                        nb@ == neighbors(m, u),
                        j <= k,
                        idx < len0,
                        order@[idx as int] == u,
                        u != goal,
                        discovery_tree(m, order@, parent@, start),
                        order@.len() <= usize::MAX,
                        len0 <= order@.len(),
                        head <= frontier@.len(),
                        frontier@.len() - head == active1.len() + (order@.len() - len0),
                        frontier@.subrange(head as int, head + active1.len()) == active1,
                        forall|a: int| 0 <= a < active1.len() ==> #[trigger] active1[a] < len0,
                        forall|a: int, b: int|
                            0 <= a < b < active1.len() ==> #[trigger] active1[a] < #[trigger] active1[b],
                        forall|a: int|
                            head + active1.len() <= a < frontier@.len() ==> #[trigger] frontier@[a]
                                == len0 + (a - head - active1.len()),
                        forall|i: int|
                            #![trigger order@[i]]
                            0 <= i < len0 && i != idx && !active1.contains(i as usize)
                                ==> expanded(m, order@, i, goal),
                        forall|jj: int| 0 <= jj < j ==> order@.contains(#[trigger] nb@[jj]),
                    decreases k - j,
                {
                    let v = nb[j];
                    if !contains_id(&order, v) {
                        let ghost o = order@;
                        order.push(v);
                        parent.push(idx);
                        let pos = order.len() - 1;
                        frontier.push(pos);
                        proof {
                            assert forall|i: int| 0 < i < order@.len() implies (#[trigger] parent@[i] as int) < i
                                && neighbors(m, order@[parent@[i] as int]).contains(order@[i]) by {
                                if i < o.len() {
                                    assert(order@[i] == o[i]);
                                    assert(order@[parent@[i] as int] == o[parent@[i] as int]);
                                } else {
                                    assert(nb@[j as int] == v);
                                }
                            }
                            assert forall|i: int|
                                #![trigger order@[i]]
                                0 <= i < len0 && i != idx && !active1.contains(i as usize)
                                    implies expanded(m, order@, i, goal) by {
                                assert(order@[i] == o[i]);
                                assert(expanded(m, o, i, goal));
                                assert forall|y: u64| #[trigger] neighbors(m, order@[i]).contains(y) implies order@.contains(y) by {
                                    let w = choose|w: int| 0 <= w < o.len() && o[w] == y;
                                    assert(order@[w] == y);
                                }
                            }
                            assert forall|jj: int| 0 <= jj < j + 1 implies order@.contains(#[trigger] nb@[jj]) by {
                                if jj < j {
                                    let w = choose|w: int| 0 <= w < o.len() && o[w] == nb@[jj];
                                    assert(order@[w] == nb@[jj]);
                                } else {
                                    assert(order@[o.len() as int] == v);
                                }
                            }
                            assert(frontier@.subrange(head as int, head + active1.len()) =~= active1);
                        }
                    }
                    j = j + 1;
                }
            },
            None => {},
        }
        proof {
            assert(frontier@.subrange(head as int, head + active1.len()) == active1);
            let act = frontier@.subrange(head as int, frontier@.len() as int);
            assert forall|a: int, b: int|
                head <= a < b < frontier@.len() implies #[trigger] frontier@[a] < #[trigger] frontier@[b] by {
                if b < head + active1.len() {
                    assert(frontier@[a] == active1[a - head] && frontier@[b] == active1[b - head]);
                } else if a < head + active1.len() {
                    assert(frontier@[a] == active1[a - head]);
                }
            }
            assert forall|a: int| head <= a < frontier@.len() implies #[trigger] frontier@[a] < order@.len() by {
                if a < head + active1.len() {
                    assert(frontier@[a] == active1[a - head]);
                }
            }
            assert forall|i: int|
                #![trigger order@[i]]
                0 <= i < order@.len() && !act.contains(i as usize) implies expanded(m, order@, i, goal) by {
                if i >= len0 {
                    let a = head + active1.len() + (i - len0);
                    assert(frontier@[a] == i);
                    assert(act[a - head] == i as usize);
                } else if i == idx {
                    assert forall|y: u64| #[trigger] neighbors(m, order@[i]).contains(y) implies order@.contains(y) by {
                        let jj = choose|jj: int| 0 <= jj < neighbors(m, u).len() && neighbors(m, u)[jj] == y;
                    }
                } else {
                    if active1.contains(i as usize) {
                        let a = choose|a: int| 0 <= a < active1.len() && active1[a] == i as usize;
                        assert(act[a] == i as usize);
                    }
                }
            }
        }
    }
    proof {
        assert forall|x: u64, y: u64| order@.contains(x) && #[trigger] neighbors(m, x).contains(y) implies #[trigger] order@.contains(y) by {
            let i = choose|i: int| 0 <= i < order@.len() && order@[i] == x;
            assert(frontier@.subrange(head as int, frontier@.len() as int) =~= Seq::<usize>::empty());
            assert(expanded(m, order@, i, goal));
        }
        assert(!order@.contains(goal)) by {
            if order@.contains(goal) {
                let i = choose|i: int| 0 <= i < order@.len() && order@[i] == goal;
                assert(frontier@.subrange(head as int, frontier@.len() as int) =~= Seq::<usize>::empty());
                assert(expanded(m, order@, i, goal));
            }
        }
        assert(order@.contains(start)) by {
            assert(order@[0] == start);
        }
        lemma_closed_set_blocks(m, order@, start, goal);
    }
    Vec::new()
}

/// The discovery record of a breadth-first search: `depth[i]` is the number
/// of edges on the tree path to position `i`, and depths never decrease
/// along `order`.
pub open spec fn layered(order: Seq<u64>, parent: Seq<usize>, depth: Seq<int>) -> bool {
    &&& depth.len() == order.len()
    &&& depth[0] == 0
    &&& forall|i: int| 0 < i < order.len() ==> #[trigger] depth[i] == depth[parent[i] as int] + 1
    &&& forall|i: int, j: int| 0 <= i <= j < order.len() ==> #[trigger] depth[i] <= #[trigger] depth[j]
    &&& forall|i: int, j: int| 0 <= i < j < order.len() ==> #[trigger] order[i] != #[trigger] order[j]
}

/// Follows parents from position `idx` back to the start; the path has one
/// id more than the depth of `idx`.
#[verifier::rlimit(60)]
fn build_layered_path(
    order: &Vec<u64>,
    parent: &Vec<usize>,
    idx: usize,
    Ghost(adj): Ghost<Map<u64, Seq<u64>>>,
    Ghost(depth): Ghost<Seq<int>>,
) -> (r: Vec<u64>)
    requires
        discovery_tree(adj, order@, parent@, order@[0]),
        layered(order@, parent@, depth),
        idx < order@.len(),
    ensures
        is_path(adj, r@, order@[0], order@[idx as int]),
        r@.len() == depth[idx as int] + 1,
{
    let mut path: Vec<u64> = Vec::new();
    path.push(order[idx]);
    let mut cur = idx;
    while cur > 0
        invariant
            discovery_tree(adj, order@, parent@, order@[0]),
            depth.len() == order@.len(),
            forall|i: int| 0 < i < order@.len() ==> #[trigger] depth[i] == depth[parent@[i] as int] + 1,
            cur < order@.len(),
            idx < order@.len(),
            is_path(adj, path@, order@[cur as int], order@[idx as int]),
            path@.len() + depth[cur as int] == depth[idx as int] + 1,
        decreases cur,
    {
        let p = parent[cur];
        let ghost old_path = path@;
        path.insert(0, order[p]);
        proof {
            assert forall|i: int| 0 <= i < path@.len() - 1 implies #[trigger] neighbors(adj, path@[i]).contains(path@[i + 1]) by {
                if i > 0 {
                    assert(path@[i] == old_path[i - 1] && path@[i + 1] == old_path[i]);
                    assert(neighbors(adj, old_path[i - 1]).contains(old_path[i - 1 + 1]));
                }
            }
        }
        cur = p;
    }
    path
}

/// What a breadth-first search returns: a search result with the fewest
/// edges among all paths from `start` to `goal`.
pub open spec fn shortest_result(adj: Map<u64, Seq<u64>>, r: Seq<u64>, start: u64, goal: u64) -> bool {
    &&& search_result(adj, r, start, goal)
    &&& forall|p: Seq<u64>| #[trigger] is_path(adj, p, start, goal) ==> r.len() <= p.len()
}

/// Along a path from `start`, every id whose prefix stays shorter than the
/// goal's depth is discovered no deeper than its position.
proof fn lemma_path_depths(
    adj: Map<u64, Seq<u64>>,
    order: Seq<u64>,
    parent: Seq<usize>,
    depth: Seq<int>,
    head: int,
    p: Seq<u64>,
    k: int,
)
    requires
        layered(order, parent, depth),
        0 <= head < order.len(),
        0 <= k < p.len(),
        k < depth[head],
        p[0] == order[0],
        forall|i: int| 0 <= i < p.len() - 1 ==> #[trigger] neighbors(adj, p[i]).contains(p[i + 1]),
        forall|i: int|
            #![trigger order[i]]
            0 <= i < head ==> forall|y: u64| #[trigger] neighbors(adj, order[i]).contains(y) ==> exists|j: int|
                0 <= j < order.len() && order[j] == y && depth[j] <= depth[i] + 1,
    ensures
        exists|j: int| 0 <= j < order.len() && order[j] == p[k] && depth[j] <= k,
    decreases k,
{
    if k == 0 {
        assert(order[0] == p[0] && depth[0] <= 0);
    } else {
        lemma_path_depths(adj, order, parent, depth, head, p, k - 1);
        let j = choose|j: int| 0 <= j < order.len() && order[j] == p[k - 1] && depth[j] <= k - 1;
        if j >= head {
            assert(depth[head] <= depth[j]);
        }
        assert(neighbors(adj, p[k - 1]).contains(p[k - 1 + 1]));
        assert(neighbors(adj, order[j]).contains(p[k]));
    }
}

/// Breadth-first search from `start` for `goal`: ids are expanded in the
/// order they were discovered, so the path found has the fewest edges.
#[verifier::rlimit(100)]
pub fn breadth_first(adj: &Vec<(u64, Vec<u64>)>, start: u64, goal: u64) -> (r: Vec<u64>)
    requires
        keys_distinct(group_view(adj@)),
    ensures
        shortest_result(map_of_pairs(group_view(adj@)), r@, start, goal),
{
    let ghost m = map_of_pairs(group_view(adj@));
    if start == goal {
        let r = vec![start];
        proof {
            assert(r@ =~= seq![start]);
            assert(is_path(m, r@, start, goal));
            assert(reachable(m, start, goal));
        }
        return r;
    }
    let mut order: Vec<u64> = vec![start];
    let mut parent: Vec<usize> = vec![0];
    let ghost mut depth: Seq<int> = seq![0int];
    let mut head: usize = 0;
    while head < order.len()
        invariant
            keys_distinct(group_view(adj@)),
            m == map_of_pairs(group_view(adj@)),
            start != goal,
            discovery_tree(m, order@, parent@, start),
            layered(order@, parent@, depth),
            order@.len() <= usize::MAX,
            head <= order@.len(),
            head < order@.len() ==> depth[order@.len() - 1] <= depth[head as int] + 1,
            forall|i: int|
                #![trigger order@[i]]
                0 <= i < head ==> order@[i] != goal && forall|y: u64| #[trigger] neighbors(m, order@[i]).contains(y)
                    ==> exists|j: int| 0 <= j < order@.len() && order@[j] == y && depth[j] <= depth[i] + 1,
        decreases usize::MAX - order@.len(), order@.len() - head,
    {
        let idx = head;
        let u = order[idx];
        if u == goal {
            let r = build_layered_path(&order, &parent, idx, Ghost(m), Ghost(depth));
            proof {
                assert(reachable(m, start, goal));
                assert forall|p: Seq<u64>| #[trigger] is_path(m, p, start, goal) implies r@.len() <= p.len() by {
                    if p.len() < r@.len() {
                        let k = p.len() - 1;
                        lemma_path_depths(m, order@, parent@, depth, head as int, p, k);
                        let j = choose|j: int| 0 <= j < order@.len() && order@[j] == p[k] && depth[j] <= k;
                        assert(p[k] == goal);
                        if j != idx {
                            if j < idx {
                                assert(order@[j] != order@[idx as int]);
                            } else {
                                assert(order@[idx as int] != order@[j]);
                            }
                        }
                    }
                }
            }
            return r;
        }
        let ghost len0 = order@.len();
        match find_group(adj, u) {
            Some(gi) => {
                let nb = &adj[gi].1;
                let k = nb.len();
                let mut j: usize = 0;
                while j < k
                    invariant
                        keys_distinct(group_view(adj@)),
                        m == map_of_pairs(group_view(adj@)),
                        start != goal,
                        k == nb@.len(),
                        nb@ == neighbors(m, u),
                        j <= k,
                        idx == head,
                        idx < len0,
                        len0 <= order@.len(),
                        order@[idx as int] == u,
                        u != goal,
                        discovery_tree(m, order@, parent@, start),
                        layered(order@, parent@, depth),
                        order@.len() <= usize::MAX,
                        depth[order@.len() - 1] <= depth[idx as int] + 1,
                        forall|i: int|
                            #![trigger order@[i]]
                            0 <= i < idx ==> order@[i] != goal && forall|y: u64| #[trigger] neighbors(m, order@[i]).contains(y)
                                ==> exists|jj: int| 0 <= jj < order@.len() && order@[jj] == y && depth[jj] <= depth[i] + 1,
                        forall|jj: int|
                            0 <= jj < j ==> exists|w: int| 0 <= w < order@.len() && order@[w] == #[trigger] nb@[jj] && depth[w] <= depth[idx as int] + 1,
                    decreases k - j,
                {
                    let v = nb[j];
                    let ghost o = order@;
                    let ghost d0 = depth;
                    if !contains_id(&order, v) {
                        order.push(v);
                        parent.push(idx);
                        let _len = order.len();
                        proof {
                            depth = depth.push(depth[idx as int] + 1);
                            assert forall|i: int| 0 < i < order@.len() implies (#[trigger] parent@[i] as int) < i
                                && neighbors(m, order@[parent@[i] as int]).contains(order@[i]) by {
                                if i < o.len() {
                                    assert(order@[i] == o[i]);
                                    assert(order@[parent@[i] as int] == o[parent@[i] as int]);
                                } else {
                                    assert(nb@[j as int] == v);
                                }
                            }
                            assert forall|a: int, b: int| 0 <= a <= b < order@.len() implies #[trigger] depth[a] <= #[trigger] depth[b] by {
                                if b == o.len() {
                                    assert(d0[a] <= d0[o.len() - 1] || a == o.len());
                                    if a < o.len() {
                                        if a >= idx {
                                            assert(d0[a] <= d0[o.len() - 1]);
                                        } else {
                                            assert(d0[a] <= d0[idx as int]);
                                        }
                                    }
                                }
                            }
                            assert forall|a: int, b: int| 0 <= a < b < order@.len() implies #[trigger] order@[a] != #[trigger] order@[b] by {
                                if b == o.len() {
                                    assert(order@[a] == o[a]);
                                    assert(!o.contains(v));
                                }
                            }
                            assert forall|i: int|
                                #![trigger order@[i]]
                                0 <= i < idx implies order@[i] != goal && forall|y: u64| #[trigger] neighbors(m, order@[i]).contains(y)
                                    ==> exists|jj: int| 0 <= jj < order@.len() && order@[jj] == y && depth[jj] <= depth[i] + 1 by {
                                assert(order@[i] == o[i]);
                                assert forall|y: u64| #[trigger] neighbors(m, order@[i]).contains(y) implies exists|jj: int|
                                    0 <= jj < order@.len() && order@[jj] == y && depth[jj] <= depth[i] + 1 by {
                                    assert(neighbors(m, o[i]).contains(y));
                                    let jj = choose|jj: int| 0 <= jj < o.len() && o[jj] == y && d0[jj] <= d0[i] + 1;
                                    assert(order@[jj] == y && depth[jj] == d0[jj]);
                                }
                            }
                            assert forall|jj: int| 0 <= jj < j + 1 implies exists|w: int|
                                0 <= w < order@.len() && order@[w] == #[trigger] nb@[jj] && depth[w] <= depth[idx as int] + 1 by {
                                if jj < j {
                                    let w = choose|w: int| 0 <= w < o.len() && o[w] == nb@[jj] && d0[w] <= d0[idx as int] + 1;
                                    assert(order@[w] == nb@[jj] && depth[w] == d0[w]);
                                } else {
                                    assert(order@[o.len() as int] == v);
                                }
                            }
                        }
                    } else {
                        proof {
                            let w = choose|w: int| 0 <= w < o.len() && o[w] == v;
                            if w >= idx {
                                assert(depth[w] <= depth[o.len() - 1]);
                            } else {
                                assert(depth[w] <= depth[idx as int]);
                            }
                            assert(nb@[j as int] == v);
                        }
                    }
                    j = j + 1;
                }
            },
            None => {},
        }
        proof {
            assert forall|i: int|
                #![trigger order@[i]]
                0 <= i < idx + 1 implies order@[i] != goal && forall|y: u64| #[trigger] neighbors(m, order@[i]).contains(y)
                    ==> exists|jj: int| 0 <= jj < order@.len() && order@[jj] == y && depth[jj] <= depth[i] + 1 by {
                if i == idx {
                    assert forall|y: u64| #[trigger] neighbors(m, order@[i]).contains(y) implies exists|jj: int|
                        0 <= jj < order@.len() && order@[jj] == y && depth[jj] <= depth[i] + 1 by {
                        let jj = choose|jj: int| 0 <= jj < neighbors(m, u).len() && neighbors(m, u)[jj] == y;
                    }
                }
            }
            if idx + 1 < order@.len() {
                assert(depth[idx as int] <= depth[idx + 1]);
            }
        }
        head = head + 1;
    }
    proof {
        assert forall|x: u64, y: u64| order@.contains(x) && #[trigger] neighbors(m, x).contains(y) implies #[trigger] order@.contains(y) by {
            let i = choose|i: int| 0 <= i < order@.len() && order@[i] == x;
            assert(order@[i] == x);
            let jj = choose|jj: int| 0 <= jj < order@.len() && order@[jj] == y && depth[jj] <= depth[i] + 1;
        }
        assert(!order@.contains(goal)) by {
            if order@.contains(goal) {
                let i = choose|i: int| 0 <= i < order@.len() && order@[i] == goal;
                assert(order@[i] != goal);
            }
        }
        assert(order@.contains(start)) by {
            assert(order@[0] == start);
        }
        lemma_closed_set_blocks(m, order@, start, goal);
    }
    Vec::new()
}

/// A breadth-first result is never longer than another search's result for
/// the same start and goal, whenever a path exists.
pub proof fn lemma_breadth_first_not_longer(adj: Map<u64, Seq<u64>>, b: Seq<u64>, other: Seq<u64>, start: u64, goal: u64)
    requires
        shortest_result(adj, b, start, goal),
        search_result(adj, other, start, goal),
        reachable(adj, start, goal),
    ensures
        b.len() > 0,
        other.len() > 0,
        b.len() <= other.len(),
{
    assert(is_path(adj, other, start, goal));
}

/// The weight of an edge: the decimal value of its property `property_name`,
/// or 1 where that property is missing or is not such a value.
pub open spec fn weight_of(e: EdgeView, property_name: Seq<char>) -> u64 {
    if e.properties.contains_key(property_name) {
        match decimal_of(encode_utf8(e.properties[property_name])) {
            Some(w) => w,
            None => 1,
        }
    } else {
        1
    }
}

/// The weight of `edge` under `property_name`.
pub fn edge_weight(edge: &Edge, property_name: &str) -> (r: u64)
    ensures
        r == weight_of(edge@, property_name@),
{
    match edge.properties.get(property_name) {
        Some(v) => match parse_decimal(v.as_str()) {
            Some(w) => w,
            None => 1,
        },
        None => 1,
    }
}

/// The least weight among the edges of `es` from `u` to `v`, if there is one.
pub open spec fn least_in(es: Seq<EdgeView>, u: u64, v: u64, p: Seq<char>) -> Option<u64>
    decreases es.len(),
{
    if es.len() == 0 {
        None
    } else {
        let r = least_in(es.drop_last(), u, v, p);
        let e = es.last();
        if e.from == u && e.to == v {
            let w = weight_of(e, p);
            match r {
                Some(b) => Some(if w < b { w } else { b }),
                None => Some(w),
            }
        } else {
            r
        }
    }
}

/// The cost of a step from `u` to `v`: the least weight of an edge from
/// `u` to `v`, or 1 when there is none.
pub open spec fn step_cost(es: Seq<EdgeView>, u: u64, v: u64, p: Seq<char>) -> u64 {
    match least_in(es, u, v, p) {
        Some(b) => b,
        None => 1,
    }
}

/// The cost of a path: the sum of the costs of its steps.
pub open spec fn path_cost(es: Seq<EdgeView>, path: Seq<u64>, p: Seq<char>) -> int
    decreases path.len(),
{
    if path.len() <= 1 {
        0
    } else {
        path_cost(es, path.drop_last(), p) + step_cost(es, path[path.len() - 2], path.last(), p)
    }
}

/// `x`, or `u64::MAX` if it is larger.
pub open spec fn capped(x: int) -> int {
    if x < u64::MAX {
        x
    } else {
        u64::MAX as int
    }
}

proof fn lemma_path_cost_prepend(es: Seq<EdgeView>, x: u64, q: Seq<u64>, p: Seq<char>)
    requires
        q.len() >= 1,
    ensures
        path_cost(es, seq![x] + q, p) == step_cost(es, x, q[0], p) + path_cost(es, q, p),
    decreases q.len(),
{
    let t = seq![x] + q;
    assert(t.len() == q.len() + 1);
    assert(t[t.len() - 2] == if q.len() == 1 { x } else { q[q.len() - 2] });
    assert(t.last() == q.last());
    if q.len() == 1 {
        assert(t.drop_last() =~= seq![x]);
        assert(path_cost(es, seq![x], p) == 0);
        assert(path_cost(es, q, p) == 0);
    } else {
        lemma_path_cost_prepend(es, x, q.drop_last(), p);
        assert(t.drop_last() =~= seq![x] + q.drop_last());
        assert(q.drop_last()[0] == q[0]);
    }
}

proof fn lemma_path_cost_prefix(es: Seq<EdgeView>, path: Seq<u64>, k: int, p: Seq<char>)
    requires
        1 <= k <= path.len(),
    ensures
        path_cost(es, path.take(k), p) <= path_cost(es, path, p),
        path_cost(es, path.take(k), p) >= 0,
    decreases path.len() - k,
{
    lemma_path_cost_nonneg(es, path.take(k), p);
    if k < path.len() {
        lemma_path_cost_prefix(es, path, k + 1, p);
        assert(path.take(k + 1).drop_last() =~= path.take(k));
        assert(path.take(k + 1)[k - 1] == path[k - 1] && path.take(k + 1).last() == path[k]);
    } else {
        assert(path.take(k) =~= path);
        lemma_path_cost_nonneg(es, path, p);
    }
}

proof fn lemma_path_cost_nonneg(es: Seq<EdgeView>, path: Seq<u64>, p: Seq<char>)
    ensures
        path_cost(es, path, p) >= 0,
    decreases path.len(),
{
    if path.len() > 1 {
        lemma_path_cost_nonneg(es, path.drop_last(), p);
    }
}

/// The least weight of an edge of `edges` from `from` to `to`, or 1 when
/// there is none.
fn least_weight(edges: &Vec<Edge>, from: u64, to: u64, property_name: &str) -> (r: u64)
    ensures
        r == step_cost(crate::table::table_seq(edges@), from, to, property_name@),
{
    let ghost es = crate::table::table_seq(edges@);
    let n = edges.len();
    let mut best: Option<u64> = None;
    let mut i: usize = 0;
    while i < n
        invariant
            n == edges@.len(),
            es == crate::table::table_seq(edges@),
            i <= n,
            best == least_in(es.take(i as int), from, to, property_name@),
        decreases n - i,
    {
        let e = &edges[i];
        proof {
            assert(es.take(i + 1).drop_last() =~= es.take(i as int));
            assert(es.take(i + 1).last() == e@);
        }
        if e.from == from && e.to == to {
            let w = edge_weight(e, property_name);
            match best {
                Some(b) => {
                    if w < b {
                        best = Some(w);
                    }
                },
                None => {
                    best = Some(w);
                },
            }
        }
        i = i + 1;
    }
    proof {
        assert(es.take(n as int) =~= es);
    }
    match best {
        Some(b) => b,
        None => 1,
    }
}

/// How many entries of `s` are false.
pub open spec fn count_open(s: Seq<bool>) -> nat
    decreases s.len(),
{
    if s.len() == 0 {
        0
    } else {
        count_open(s.drop_last()) + if s.last() {
            0nat
        } else {
            1nat
        }
    }
}

proof fn lemma_count_open_close(s: Seq<bool>, i: int)
    requires
        0 <= i < s.len(),
        !s[i],
    ensures
        count_open(s.update(i, true)) + 1 == count_open(s),
    decreases s.len(),
{
    let t = s.update(i, true);
    if i == s.len() - 1 {
        assert(t.drop_last() =~= s.drop_last());
    } else {
        assert(t.drop_last() =~= s.drop_last().update(i, true));
        lemma_count_open_close(s.drop_last(), i);
    }
}

/// The unsettled position with the least cost, ties going to the smaller id.
fn select_next(ids: &Vec<u64>, dist: &Vec<u64>, settled: &Vec<bool>) -> (r: Option<usize>)
    requires
        ids@.len() == dist@.len(),
        ids@.len() == settled@.len(),
    ensures
        match r {
            Some(c) => c < settled@.len() && !settled@[c as int] && forall|i: int|
                0 <= i < settled@.len() && !#[trigger] settled@[i] ==> dist@[c as int] < dist@[i] || (
                dist@[c as int] == dist@[i] && ids@[c as int] <= ids@[i]),
            None => forall|i: int| 0 <= i < settled@.len() ==> #[trigger] settled@[i],
        },
{
    let n = settled.len();
    let mut best: Option<usize> = None;
    let mut i: usize = 0;
    while i < n
        invariant
            n == settled@.len(),
            ids@.len() == dist@.len(),
            ids@.len() == settled@.len(),
            i <= n,
            match best {
                Some(c) => c < i && !settled@[c as int] && forall|k: int|
                    0 <= k < i && !#[trigger] settled@[k] ==> dist@[c as int] < dist@[k] || (
                    dist@[c as int] == dist@[k] && ids@[c as int] <= ids@[k]),
                None => forall|k: int| 0 <= k < i ==> #[trigger] settled@[k],
            },
        decreases n - i,
    {
        if !settled[i] {
            match best {
                Some(c) => {
                    if dist[i] < dist[c] || (dist[i] == dist[c] && ids[i] < ids[c]) {
                        best = Some(i);
                    }
                },
                None => {
                    best = Some(i);
                },
            }
        }
        i = i + 1;
    }
    best
}

/// The position of `v` in `s`, if it occurs there.
fn position_of(s: &Vec<u64>, v: u64) -> (r: Option<usize>)
    ensures
        match r {
            Some(p) => p < s@.len() && s@[p as int] == v,
            None => !s@.contains(v),
        },
{
    let n = s.len();
    let mut i: usize = 0;
    while i < n
        invariant
            n == s@.len(),
            i <= n,
            forall|j: int| 0 <= j < i ==> s@[j] != v,
        decreases n - i,
    {
        if s[i] == v {
            return Some(i);
        }
        i = i + 1;
    }
    None
}

/// The record of a weighted search: `ids[0]` is the start; every other
/// discovered id has a settled parent with an edge to it, settled before it.
pub open spec fn settle_tree(
    adj: Map<u64, Seq<u64>>,
    ids: Seq<u64>,
    par: Seq<usize>,
    settled: Seq<bool>,
    rank: Seq<int>,
) -> bool {
    &&& ids.len() == par.len()
    &&& ids.len() == settled.len()
    &&& ids.len() == rank.len()
    &&& ids.len() > 0
    &&& forall|i: int| 0 <= i < ids.len() && #[trigger] settled[i] ==> 0 <= rank[i]
    &&& forall|i: int|
        #![trigger par[i]]
        0 < i < ids.len() ==> par[i] < ids.len() && settled[par[i] as int] && neighbors(
            adj,
            ids[par[i] as int],
        ).contains(ids[i]) && (settled[i] ==> rank[par[i] as int] < rank[i])
}

/// Follows settled parents from position `idx` back to the start.
#[verifier::rlimit(60)]
fn settled_path(
    ids: &Vec<u64>,
    par: &Vec<usize>,
    idx: usize,
    Ghost(adj): Ghost<Map<u64, Seq<u64>>>,
    Ghost(settled): Ghost<Seq<bool>>,
    Ghost(rank): Ghost<Seq<int>>,
    Ghost(es): Ghost<Seq<EdgeView>>,
    Ghost(prop): Ghost<Seq<char>>,
    Ghost(cost): Ghost<Seq<int>>,
) -> (r: Vec<u64>)
    requires
        settle_tree(adj, ids@, par@, settled, rank),
        idx < ids@.len(),
        settled[idx as int],
        cost.len() == ids@.len(),
        cost[0] == 0,
        forall|i: int|
            0 < i < ids@.len() ==> #[trigger] cost[i] == cost[par@[i] as int] + step_cost(
                es,
                ids@[par@[i] as int],
                ids@[i],
                prop,
            ),
    ensures
        is_path(adj, r@, ids@[0], ids@[idx as int]),
        path_cost(es, r@, prop) == cost[idx as int],
{
    let mut path: Vec<u64> = Vec::new();
    path.push(ids[idx]);
    let mut cur = idx;
    proof {
        assert(path_cost(es, path@, prop) == 0);
    }
    while cur != 0
        invariant
            settle_tree(adj, ids@, par@, settled, rank),
            cur < ids@.len(),
            idx < ids@.len(),
            settled[cur as int],
            is_path(adj, path@, ids@[cur as int], ids@[idx as int]),
            cost.len() == ids@.len(),
            cost[0] == 0,
            forall|i: int|
                0 < i < ids@.len() ==> #[trigger] cost[i] == cost[par@[i] as int] + step_cost(
                    es,
                    ids@[par@[i] as int],
                    ids@[i],
                    prop,
                ),
            path_cost(es, path@, prop) + cost[cur as int] == cost[idx as int],
        decreases rank[cur as int],
    {
        let p = par[cur];
        let ghost old_path = path@;
        path.insert(0, ids[p]);
        proof {
            assert(path@ =~= seq![ids@[p as int]] + old_path);
            lemma_path_cost_prepend(es, ids@[p as int], old_path, prop);
            assert forall|i: int| 0 <= i < path@.len() - 1 implies #[trigger] neighbors(
                adj,
                path@[i],
            ).contains(path@[i + 1]) by {
                if i > 0 {
                    assert(path@[i] == old_path[i - 1] && path@[i + 1] == old_path[i]);
                    assert(neighbors(adj, old_path[i - 1]).contains(old_path[i - 1 + 1]));
                }
            }
        }
        cur = p;
    }
    path
}

/// The cost bookkeeping of a weighted search: `cost[i]` is the cost of the
/// tree path to position `i`, `dist[i]` is that cost capped at `u64::MAX`,
/// settled costs are final and no larger than unsettled ones, and each
/// settled id has relaxed all its steps.
pub open spec fn cost_inv(
    m: Map<u64, Seq<u64>>,
    es: Seq<EdgeView>,
    prop: Seq<char>,
    ids: Seq<u64>,
    dist: Seq<u64>,
    par: Seq<usize>,
    settled: Seq<bool>,
    cost: Seq<int>,
    start: u64,
) -> bool {
    &&& cost.len() == ids.len()
    &&& dist.len() == ids.len()
    &&& settled.len() == ids.len()
    &&& par.len() == ids.len()
    &&& cost_core(es, prop, ids, dist, par, cost)
    &&& forall|i: int, j: int| 0 <= i < j < ids.len() ==> #[trigger] ids[i] != #[trigger] ids[j]
    &&& forall|i: int, j: int|
        0 <= i < ids.len() && 0 <= j < ids.len() && #[trigger] settled[i] && !#[trigger] settled[j] ==> dist[i] <= dist[j]
    &&& forall|i: int|
        #![trigger settled[i]]
        0 <= i < ids.len() && settled[i] ==> forall|q: Seq<u64>|
            #[trigger] is_path(m, q, start, ids[i]) ==> dist[i] <= path_cost(es, q, prop)
    &&& forall|u: int|
        #![trigger settled[u]]
        0 <= u < ids.len() && settled[u] ==> relaxed(m, es, prop, ids, dist, u)
}

/// Costs follow the tree, and `dist` is the capped cost.
pub open spec fn cost_core(es: Seq<EdgeView>, prop: Seq<char>, ids: Seq<u64>, dist: Seq<u64>, par: Seq<usize>, cost: Seq<int>) -> bool {
    &&& cost[0] == 0
    &&& forall|i: int| 0 <= i < ids.len() ==> #[trigger] cost[i] >= 0
    &&& forall|i: int|
        0 < i < ids.len() ==> #[trigger] cost[i] == cost[par[i] as int] + step_cost(es, ids[par[i] as int], ids[i], prop)
    &&& forall|i: int| 0 <= i < ids.len() ==> #[trigger] dist[i] as int == capped(cost[i])
}

/// `cost_inv`, except that position `c` need not have relaxed its steps yet.
#[verifier::opaque]
pub open spec fn cost_inv_except(
    m: Map<u64, Seq<u64>>,
    es: Seq<EdgeView>,
    prop: Seq<char>,
    ids: Seq<u64>,
    dist: Seq<u64>,
    par: Seq<usize>,
    settled: Seq<bool>,
    cost: Seq<int>,
    start: u64,
    c: int,
) -> bool {
    &&& cost.len() == ids.len()
    &&& dist.len() == ids.len()
    &&& settled.len() == ids.len()
    &&& par.len() == ids.len()
    &&& cost_core(es, prop, ids, dist, par, cost)
    &&& forall|i: int, j: int| 0 <= i < j < ids.len() ==> #[trigger] ids[i] != #[trigger] ids[j]
    &&& forall|i: int, j: int|
        0 <= i < ids.len() && 0 <= j < ids.len() && #[trigger] settled[i] && !#[trigger] settled[j] ==> dist[i] <= dist[j]
    &&& forall|i: int|
        #![trigger settled[i]]
        0 <= i < ids.len() && settled[i] ==> forall|q: Seq<u64>|
            #[trigger] is_path(m, q, start, ids[i]) ==> dist[i] <= path_cost(es, q, prop)
    &&& forall|u: int|
        #![trigger settled[u]]
        0 <= u < ids.len() && settled[u] && u != c ==> relaxed(m, es, prop, ids, dist, u)
}

proof fn lemma_except_facts(
    m: Map<u64, Seq<u64>>,
    es: Seq<EdgeView>,
    prop: Seq<char>,
    ids: Seq<u64>,
    dist: Seq<u64>,
    par: Seq<usize>,
    settled: Seq<bool>,
    cost: Seq<int>,
    start: u64,
    c: int,
)
    requires
        cost_inv_except(m, es, prop, ids, dist, par, settled, cost, start, c),
        0 <= c < ids.len(),
    ensures
        cost[c] >= 0,
        dist[c] as int == capped(cost[c]),
        cost.len() == ids.len(),
        forall|i: int| 0 <= i < ids.len() ==> #[trigger] dist[i] as int == capped(cost[i]),
{
    reveal(cost_inv_except);
}

proof fn lemma_settle_transition(
    m: Map<u64, Seq<u64>>,
    es: Seq<EdgeView>,
    prop: Seq<char>,
    ids: Seq<u64>,
    dist: Seq<u64>,
    par: Seq<usize>,
    s0: Seq<bool>,
    cost: Seq<int>,
    start: u64,
    c: int,
)
    requires
        cost_inv(m, es, prop, ids, dist, par, s0, cost, start),
        0 <= c < ids.len(),
        !s0[c],
        forall|j: int| 0 <= j < ids.len() && !#[trigger] s0[j] ==> dist[c] <= dist[j],
        forall|q: Seq<u64>| #[trigger] is_path(m, q, start, ids[c]) ==> dist[c] <= path_cost(es, q, prop),
    ensures
        cost_inv_except(m, es, prop, ids, dist, par, s0.update(c, true), cost, start, c),
{
    reveal(cost_inv_except);
    let s1 = s0.update(c, true);
    assert forall|i: int, j: int|
        0 <= i < ids.len() && 0 <= j < ids.len() && #[trigger] s1[i] && !#[trigger] s1[j] implies dist[i] <= dist[j] by {
        assert(!s0[j]);
        if i != c {
            assert(s0[i]);
        }
    }
    assert forall|i: int|
        #![trigger s1[i]]
        0 <= i < ids.len() && s1[i] implies forall|q: Seq<u64>|
            #[trigger] is_path(m, q, start, ids[i]) ==> dist[i] <= path_cost(es, q, prop) by {
        if i != c {
            assert(s0[i]);
        }
    }
    assert forall|u: int|
        #![trigger s1[u]]
        0 <= u < ids.len() && s1[u] && u != c implies relaxed(m, es, prop, ids, dist, u) by {
        assert(s0[u]);
    }
}

#[verifier::rlimit(100)]
proof fn lemma_push_keeps(
    m: Map<u64, Seq<u64>>,
    es: Seq<EdgeView>,
    prop: Seq<char>,
    ids: Seq<u64>,
    dist: Seq<u64>,
    par: Seq<usize>,
    settled: Seq<bool>,
    cost: Seq<int>,
    start: u64,
    c: int,
    v: u64,
    nd: u64,
    w: u64,
)
    requires
        cost_inv_except(m, es, prop, ids, dist, par, settled, cost, start, c),
        0 <= c < ids.len(),
        settled[c],
        !ids.contains(v),
        w == step_cost(es, ids[c], v, prop),
        nd as int == capped(cost[c] + w),
        forall|i: int| 0 <= i < ids.len() && #[trigger] settled[i] ==> dist[i] <= dist[c],
        forall|i: int| 0 < i < ids.len() ==> #[trigger] par[i] < ids.len(),
        ids.len() <= usize::MAX,
    ensures
        cost_inv_except(
            m,
            es,
            prop,
            ids.push(v),
            dist.push(nd),
            par.push(c as usize),
            settled.push(false),
            cost.push(cost[c] + w),
            start,
            c,
        ),
{
    reveal(cost_inv_except);
    let ids2 = ids.push(v);
    let dist2 = dist.push(nd);
    let par2 = par.push(c as usize);
    let s2 = settled.push(false);
    let cost2 = cost.push(cost[c] + w);
    let n = ids.len() as int;
    lemma_capped_add(cost[c], w as int);
    assert forall|i: int| 0 < i < ids2.len() implies #[trigger] cost2[i] == cost2[par2[i] as int] + step_cost(
        es,
        ids2[par2[i] as int],
        ids2[i],
        prop,
    ) by {
        if i < n {
            assert(cost2[i] == cost[i] && par2[i] == par[i] && ids2[i] == ids[i]);
            assert(par[i] < n);
            assert(cost2[par[i] as int] == cost[par[i] as int] && ids2[par[i] as int] == ids[par[i] as int]);
            assert(cost[i] == cost[par[i] as int] + step_cost(es, ids[par[i] as int], ids[i], prop));
        } else {
            assert(i == n);
            assert(par2[i] == c as usize);
            assert(cost2[c] == cost[c] && ids2[c] == ids[c] && ids2[i] == v);
        }
    }
    assert(cost_core(es, prop, ids2, dist2, par2, cost2)) by {
        assert forall|i: int| 0 <= i < ids2.len() implies #[trigger] cost2[i] >= 0 by {
            if i < n {
                assert(cost2[i] == cost[i]);
            }
        }
        assert forall|i: int| 0 <= i < ids2.len() implies #[trigger] dist2[i] as int == capped(cost2[i]) by {
            if i < n {
                assert(dist2[i] == dist[i] && cost2[i] == cost[i]);
            }
        }
    }
    assert forall|i: int, j: int| 0 <= i < j < ids2.len() implies #[trigger] ids2[i] != #[trigger] ids2[j] by {
        if j == n {
            assert(ids2[i] == ids[i]);
        } else {
            assert(ids2[i] == ids[i] && ids2[j] == ids[j]);
        }
    }
    assert forall|i: int, j: int|
        0 <= i < ids2.len() && 0 <= j < ids2.len() && #[trigger] s2[i] && !#[trigger] s2[j] implies dist2[i] <= dist2[j] by {
        assert(i < n);
        assert(settled[i] && dist2[i] == dist[i]);
        if j < n {
            assert(!settled[j] && dist2[j] == dist[j]);
        } else {
            assert(dist[i] <= dist[c]);
            assert(dist[c] as int == capped(cost[c]));
        }
    }
    assert forall|i: int|
        #![trigger s2[i]]
        0 <= i < ids2.len() && s2[i] implies forall|q: Seq<u64>|
            #[trigger] is_path(m, q, start, ids2[i]) ==> dist2[i] <= path_cost(es, q, prop) by {
        assert(i < n);
        assert(settled[i] && ids2[i] == ids[i] && dist2[i] == dist[i]);
    }
    assert forall|u: int|
        #![trigger s2[u]]
        0 <= u < ids2.len() && s2[u] && u != c implies relaxed(m, es, prop, ids2, dist2, u) by {
        assert(u < n);
        assert(settled[u]);
        assert(relaxed(m, es, prop, ids, dist, u));
        assert(ids2[u] == ids[u] && dist2[u] == dist[u]);
        assert forall|x: u64| #[trigger] neighbors(m, ids2[u]).contains(x) implies exists|z: int|
            0 <= z < ids2.len() && ids2[z] == x && dist2[z] <= capped(dist2[u] + step_cost(es, ids2[u], x, prop)) by {
            let z = choose|z: int|
                0 <= z < ids.len() && ids[z] == x && dist[z] <= capped(dist[u] + step_cost(es, ids[u], x, prop));
            assert(ids2[z] == ids[z] && dist2[z] == dist[z]);
        }
    }
}

#[verifier::rlimit(100)]
proof fn lemma_update_keeps(
    m: Map<u64, Seq<u64>>,
    es: Seq<EdgeView>,
    prop: Seq<char>,
    ids: Seq<u64>,
    dist: Seq<u64>,
    par: Seq<usize>,
    settled: Seq<bool>,
    cost: Seq<int>,
    start: u64,
    c: int,
    p: int,
    nd: u64,
    w: u64,
)
    requires
        cost_inv_except(m, es, prop, ids, dist, par, settled, cost, start, c),
        0 <= c < ids.len(),
        0 < p < ids.len(),
        settled[c],
        !settled[p],
        nd < dist[p],
        w == step_cost(es, ids[c], ids[p], prop),
        nd as int == capped(cost[c] + w),
        forall|i: int| 0 <= i < ids.len() && #[trigger] settled[i] ==> dist[i] <= dist[c],
        forall|i: int| 0 < i < ids.len() ==> #[trigger] settled[par[i] as int],
        forall|i: int| 0 < i < ids.len() ==> #[trigger] par[i] < ids.len(),
        ids.len() <= usize::MAX,
    ensures
        cost_inv_except(
            m,
            es,
            prop,
            ids,
            dist.update(p, nd),
            par.update(p, c as usize),
            settled,
            cost.update(p, cost[c] + w),
            start,
            c,
        ),
{
    reveal(cost_inv_except);
    let dist2 = dist.update(p, nd);
    let par2 = par.update(p, c as usize);
    let cost2 = cost.update(p, cost[c] + w);
    lemma_capped_add(cost[c], w as int);
    assert(cost_core(es, prop, ids, dist2, par2, cost2)) by {
        assert forall|i: int| 0 < i < ids.len() implies #[trigger] cost2[i] == cost2[par2[i] as int] + step_cost(
            es,
            ids[par2[i] as int],
            ids[i],
            prop,
        ) by {
            if i != p {
                assert(settled[par[i] as int]);
                assert(par[i] as int != p);
                assert(cost[i] == cost[par[i] as int] + step_cost(es, ids[par[i] as int], ids[i], prop));
                assert(cost2[i] == cost[i] && par2[i] == par[i] && cost2[par[i] as int] == cost[par[i] as int]);
            } else {
                assert(c != p);
                assert(par2[i] == c as usize && cost2[c] == cost[c] && cost2[i] == cost[c] + w);
            }
        }
        assert forall|i: int| 0 <= i < ids.len() implies #[trigger] cost2[i] >= 0 by {
            assert(cost[i] >= 0);
        }
        assert forall|i: int| 0 <= i < ids.len() implies #[trigger] dist2[i] as int == capped(cost2[i]) by {
            assert(dist[i] as int == capped(cost[i]));
        }
    }
    assert forall|i: int, j: int|
        0 <= i < ids.len() && 0 <= j < ids.len() && #[trigger] settled[i] && !#[trigger] settled[j] implies dist2[i] <= dist2[j] by {
        assert(i != p);
        if j == p {
            assert(dist[i] <= dist[c]);
            assert(dist[c] as int == capped(cost[c]));
        }
    }
    assert forall|i: int|
        #![trigger settled[i]]
        0 <= i < ids.len() && settled[i] implies forall|q: Seq<u64>|
            #[trigger] is_path(m, q, start, ids[i]) ==> dist2[i] <= path_cost(es, q, prop) by {
        assert(i != p);
    }
    assert forall|u: int|
        #![trigger settled[u]]
        0 <= u < ids.len() && settled[u] && u != c implies relaxed(m, es, prop, ids, dist2, u) by {
        assert(relaxed(m, es, prop, ids, dist, u));
        assert(u != p);
        assert forall|x: u64| #[trigger] neighbors(m, ids[u]).contains(x) implies exists|z: int|
            0 <= z < ids.len() && ids[z] == x && dist2[z] <= capped(dist2[u] + step_cost(es, ids[u], x, prop)) by {
            let z = choose|z: int|
                0 <= z < ids.len() && ids[z] == x && dist[z] <= capped(dist[u] + step_cost(es, ids[u], x, prop));
        }
    }
}

proof fn lemma_restore_inv(
    m: Map<u64, Seq<u64>>,
    es: Seq<EdgeView>,
    prop: Seq<char>,
    ids: Seq<u64>,
    dist: Seq<u64>,
    par: Seq<usize>,
    settled: Seq<bool>,
    cost: Seq<int>,
    start: u64,
    c: int,
)
    requires
        cost_inv_except(m, es, prop, ids, dist, par, settled, cost, start, c),
        0 <= c < ids.len(),
        relaxed(m, es, prop, ids, dist, c),
    ensures
        cost_inv(m, es, prop, ids, dist, par, settled, cost, start),
{
    reveal(cost_inv_except);
    assert forall|u: int|
        #![trigger settled[u]]
        0 <= u < ids.len() && settled[u] implies relaxed(m, es, prop, ids, dist, u) by {
        if u != c {
        }
    }
}

/// Every step out of position `u` leads to a discovered id whose cost is at
/// most `u`'s cost plus the step's.
pub open spec fn relaxed(m: Map<u64, Seq<u64>>, es: Seq<EdgeView>, prop: Seq<char>, ids: Seq<u64>, dist: Seq<u64>, u: int) -> bool {
    forall|v: u64|
        #[trigger] neighbors(m, ids[u]).contains(v) ==> exists|z: int|
            0 <= z < ids.len() && ids[z] == v && dist[z] <= capped(dist[u] + step_cost(es, ids[u], v, prop))
}

/// Some settled position holds `x`.
pub open spec fn settled_id(ids: Seq<u64>, settled: Seq<bool>, x: u64) -> bool {
    exists|i: int| 0 <= i < ids.len() && ids[i] == x && settled[i]
}

proof fn lemma_first_unsettled(ids: Seq<u64>, settled: Seq<bool>, q: Seq<u64>, i: int) -> (k: int)
    requires
        0 <= i < q.len(),
        settled_id(ids, settled, q[i]),
        !settled_id(ids, settled, q.last()),
    ensures
        i < k < q.len(),
        settled_id(ids, settled, q[k - 1]),
        !settled_id(ids, settled, q[k]),
    decreases q.len() - i,
{
    if i == q.len() - 1 {
        assert(false);
        0
    } else if !settled_id(ids, settled, q[i + 1]) {
        i + 1
    } else {
        lemma_first_unsettled(ids, settled, q, i + 1)
    }
}

proof fn lemma_capped_add(x: int, w: int)
    requires
        0 <= x,
        0 <= w,
    ensures
        capped(x + w) == capped(capped(x) + w),
        capped(x + w) <= x + w,
        capped(x) <= capped(x + w),
{
}

/// When the cheapest unsettled position is settled, its cost is final: no
/// path to its id costs less.
proof fn lemma_settle_cut(
    m: Map<u64, Seq<u64>>,
    es: Seq<EdgeView>,
    prop: Seq<char>,
    ids: Seq<u64>,
    dist: Seq<u64>,
    par: Seq<usize>,
    settled: Seq<bool>,
    cost: Seq<int>,
    start: u64,
    c: int,
    q: Seq<u64>,
)
    requires
        cost_inv(m, es, prop, ids, dist, par, settled, cost, start),
        ids.len() > 0,
        ids[0] == start,
        settled[0],
        0 <= c < ids.len(),
        !settled[c],
        forall|j: int| 0 <= j < ids.len() && !#[trigger] settled[j] ==> dist[c] <= dist[j],
        is_path(m, q, start, ids[c]),
    ensures
        dist[c] <= path_cost(es, q, prop),
{
    assert(settled_id(ids, settled, q[0]));
    assert(!settled_id(ids, settled, q.last())) by {
        if settled_id(ids, settled, q.last()) {
            let i = choose|i: int| 0 <= i < ids.len() && ids[i] == q.last() && settled[i];
            if i < c {
                assert(ids[i] != ids[c]);
            } else if c < i {
                assert(ids[c] != ids[i]);
            }
        }
    }
    let k = lemma_first_unsettled(ids, settled, q, 0);
    let u = choose|u: int| 0 <= u < ids.len() && ids[u] == q[k - 1] && settled[u];
    let pre = q.take(k);
    assert(is_path(m, pre, start, ids[u])) by {
        assert forall|i: int| 0 <= i < pre.len() - 1 implies #[trigger] neighbors(m, pre[i]).contains(pre[i + 1]) by {
            assert(neighbors(m, q[i]).contains(q[i + 1]));
        }
    }
    assert(dist[u] <= path_cost(es, pre, prop));
    assert(neighbors(m, q[k - 1]).contains(q[(k - 1) + 1]));
    assert(relaxed(m, es, prop, ids, dist, u));
    let z = choose|z: int|
        0 <= z < ids.len() && ids[z] == q[k] && dist[z] <= capped(dist[u] + step_cost(es, ids[u], q[k], prop));
    assert(!settled[z]) by {
        if settled[z] {
            assert(settled_id(ids, settled, q[k]));
        }
    }
    assert(q.take(k + 1).drop_last() =~= pre);
    lemma_path_cost_prefix(es, q, k + 1, prop);
    lemma_path_cost_nonneg(es, pre, prop);
    assert(path_cost(es, q.take(k + 1), prop) == path_cost(es, pre, prop) + step_cost(es, q[k - 1], q[k], prop));
}

/// Dijkstra's search from `start` for `goal` over `adj`, where a step from
/// `u` to `v` costs the least weight of an edge of `edges` from `u` to `v`.
/// Among unsettled ids the one with the least cost is settled first, ties
/// going to the smaller id. Costs stop growing at `u64::MAX`: no path costs
/// less than the returned one, or, where that one costs `u64::MAX` or more,
/// neither does any other.
#[verifier::rlimit(100)]
pub fn shortest_path(
    adj: &Vec<(u64, Vec<u64>)>,
    edges: &Vec<Edge>,
    start: u64,
    goal: u64,
    property_name: &str,
) -> (r: Vec<u64>)
    requires
        keys_distinct(group_view(adj@)),
    ensures
        search_result(map_of_pairs(group_view(adj@)), r@, start, goal),
        forall|q: Seq<u64>|
            #[trigger] is_path(map_of_pairs(group_view(adj@)), q, start, goal) ==> capped(
                path_cost(crate::table::table_seq(edges@), r@, property_name@),
            ) <= path_cost(crate::table::table_seq(edges@), q, property_name@),
{
    let ghost m = map_of_pairs(group_view(adj@));
    let ghost es = crate::table::table_seq(edges@);
    let ghost prop = property_name@;
    if start == goal {
        let r = vec![start];
        proof {
            assert(r@ =~= seq![start]);
            assert(is_path(m, r@, start, goal));
            assert(reachable(m, start, goal));
            assert forall|q: Seq<u64>| #[trigger] is_path(m, q, start, goal) implies capped(path_cost(es, r@, prop))
                <= path_cost(es, q, prop) by {
                lemma_path_cost_nonneg(es, q, prop);
            }
        }
        return r;
    }
    let mut ids: Vec<u64> = vec![start];
    let mut dist: Vec<u64> = vec![0];
    let mut par: Vec<usize> = vec![0];
    let mut settled: Vec<bool> = vec![false];
    let ghost mut rank: Seq<int> = seq![0int];
    let ghost mut count: int = 0;
    let ghost mut cost: Seq<int> = seq![0int];
    loop
        invariant
            keys_distinct(group_view(adj@)),
            m == map_of_pairs(group_view(adj@)),
            es == crate::table::table_seq(edges@),
            prop == property_name@,
            start != goal,
            ids@[0] == start,
            ids@.len() == dist@.len(),
            ids@.len() <= usize::MAX,
            settle_tree(m, ids@, par@, settled@, rank),
            cost_inv(m, es, prop, ids@, dist@, par@, settled@, cost, start),
            0 <= count,
            count == 0 ==> ids@.len() == 1,
            count > 0 ==> settled@[0],
            forall|i: int| 0 <= i < ids@.len() && #[trigger] settled@[i] ==> rank[i] < count,
            forall|i: int|
                0 <= i < ids@.len() && #[trigger] settled@[i] ==> ids@[i] != goal && forall|y: u64|
                    #[trigger] neighbors(m, ids@[i]).contains(y) ==> ids@.contains(y),
        ensures
            forall|i: int| 0 <= i < settled@.len() ==> #[trigger] settled@[i],
        decreases usize::MAX - ids@.len(), count_open(settled@),
    {
        let c = match select_next(&ids, &dist, &settled) {
            Some(c) => c,
            None => {
                break ;
            },
        };
        let ghost len0 = ids@.len();
        let ghost open0 = count_open(settled@);
        proof {
            lemma_count_open_close(settled@, c as int);
            // the cost of `c` is final
            assert forall|q: Seq<u64>| #[trigger] is_path(m, q, start, ids@[c as int]) implies dist@[c as int]
                <= path_cost(es, q, prop) by {
                if count == 0 {
                    assert(c == 0);
                    assert(dist@[0] as int == capped(cost[0]));
                    lemma_path_cost_nonneg(es, q, prop);
                } else {
                    lemma_settle_cut(m, es, prop, ids@, dist@, par@, settled@, cost, start, c as int, q);
                }
            }
        }
        let ghost s0 = settled@;
        let ghost r0 = rank;
        settled.set(c, true);
        proof {
            rank = rank.update(c as int, count);
            count = count + 1;
            assert forall|i: int| 0 <= i < ids@.len() && #[trigger] settled@[i] implies 0 <= rank[i] by {
                if i != c as int {
                    assert(s0[i]);
                }
            }
            assert forall|i: int|
                #![trigger par@[i]]
                0 < i < ids@.len() implies par@[i] < ids@.len() && settled@[par@[i] as int] && neighbors(
                    m,
                    ids@[par@[i] as int],
                ).contains(ids@[i]) && (settled@[i] ==> rank[par@[i] as int] < rank[i]) by {
                assert(s0[par@[i] as int]);
                if i == c as int {
                    assert(rank[par@[i] as int] == r0[par@[i] as int]);
                }
                if i != c as int {
                    if settled@[i] {
                        assert(s0[i]);
                        assert(par@[i] != c);
                    }
                }
            }
            assert(settled@[0]) by {
                if count - 1 == 0 {
                    assert(c == 0);
                } else {
                    assert(s0[0]);
                }
            }
        }
        proof {
            lemma_settle_transition(m, es, prop, ids@, dist@, par@, s0, cost, start, c as int);
            assert(settled@ == s0.update(c as int, true));
        }
        let u = ids[c];
        if u == goal {
            let r = settled_path(&ids, &par, c, Ghost(m), Ghost(settled@), Ghost(rank), Ghost(es), Ghost(prop), Ghost(cost));
            proof {
                assert(reachable(m, start, goal));
                lemma_except_facts(m, es, prop, ids@, dist@, par@, settled@, cost, start, c as int);
                assert forall|q: Seq<u64>| #[trigger] is_path(m, q, start, goal) implies capped(path_cost(es, r@, prop))
                    <= path_cost(es, q, prop) by {
                    assert(dist@[c as int] as int == capped(cost[c as int]));
                }
            }
            return r;
        }
        let du = dist[c];
        proof {
            // settled positions other than `c` cost no more than `c`
            assert forall|i: int| 0 <= i < ids@.len() && #[trigger] settled@[i] implies dist@[i] <= du by {
                if i != c as int {
                    assert(s0[i] && !s0[c as int]);
                }
            }
        }
        match find_group(adj, u) {
            Some(gi) => {
                let nb = &adj[gi].1;
                let k = nb.len();
                let mut j: usize = 0;
                while j < k
                    invariant
                        keys_distinct(group_view(adj@)),
                        m == map_of_pairs(group_view(adj@)),
                        es == crate::table::table_seq(edges@),
                        prop == property_name@,
                        start != goal,
                        ids@[0] == start,
                        k == nb@.len(),
                        nb@ == neighbors(m, u),
                        j <= k,
                        c < ids@.len(),
                        ids@[c as int] == u,
                        dist@[c as int] == du,
                        settled@[c as int],
                        settled@[0],
                        u != goal,
                        ids@.len() == dist@.len(),
                        ids@.len() <= usize::MAX,
                        len0 <= ids@.len(),
                        count_open(settled@) + 1 + len0 == open0 + ids@.len(),
                        settle_tree(m, ids@, par@, settled@, rank),
                        cost_inv_except(m, es, prop, ids@, dist@, par@, settled@, cost, start, c as int),
                        forall|i: int| 0 <= i < ids@.len() && #[trigger] settled@[i] ==> dist@[i] <= du,
                        forall|i: int| 0 <= i < ids@.len() && #[trigger] settled@[i] ==> rank[i] < count,
                        forall|i: int|
                            0 <= i < ids@.len() && i != c && #[trigger] settled@[i] ==> ids@[i] != goal
                                && forall|y: u64| #[trigger] neighbors(m, ids@[i]).contains(y) ==> ids@.contains(y),
                        forall|jj: int| 0 <= jj < j ==> ids@.contains(#[trigger] nb@[jj]),
                        forall|jj: int|
                            0 <= jj < j ==> exists|z: int|
                                0 <= z < ids@.len() && ids@[z] == #[trigger] nb@[jj] && dist@[z] <= capped(
                                    du + step_cost(es, u, nb@[jj], prop),
                                ),
                    decreases k - j,
                {
                    let v = nb[j];
                    let w = least_weight(edges, u, v, property_name);
                    let nd = du.saturating_add(w);
                    proof {
                        lemma_except_facts(m, es, prop, ids@, dist@, par@, settled@, cost, start, c as int);
                        lemma_capped_add(cost[c as int], w as int);
                        assert(nd as int == capped(du + w));
                        assert(nb@[j as int] == v);
                    }
                    let ghost o = ids@;
                    let ghost od = dist@;
                    let ghost op = par@;
                    let ghost oc = cost;
                    match position_of(&ids, v) {
                        None => {
                            let ghost so = settled@;
                            ids.push(v);
                            dist.push(nd);
                            par.push(c);
                            settled.push(false);
                            let _len = ids.len();
                            proof {
                                rank = rank.push(0);
                                cost = cost.push(oc[c as int] + w);
                                assert(settled@.drop_last() =~= so);
                                assert forall|i: int| 0 < i < o.len() implies #[trigger] op[i] < o.len() by {
                                    assert(op[i] == op[i]);
                                }
                                lemma_push_keeps(m, es, prop, o, od, op, so, oc, start, c as int, v, nd, w);
                                assert forall|i: int|
                                    #![trigger par@[i]]
                                    0 < i < ids@.len() implies par@[i] < ids@.len() && settled@[par@[i] as int]
                                        && neighbors(m, ids@[par@[i] as int]).contains(ids@[i]) && (settled@[i]
                                        ==> rank[par@[i] as int] < rank[i]) by {
                                    if i < o.len() {
                                        assert(ids@[i] == o[i]);
                                    }
                                }
                                assert forall|i: int|
                                    0 <= i < ids@.len() && i != c && #[trigger] settled@[i] implies ids@[i] != goal
                                        && forall|y: u64| #[trigger] neighbors(m, ids@[i]).contains(y) ==> ids@.contains(y) by {
                                    assert(ids@[i] == o[i]);
                                    assert forall|y: u64| #[trigger] neighbors(m, ids@[i]).contains(y) implies ids@.contains(y) by {
                                        let wi = choose|wi: int| 0 <= wi < o.len() && o[wi] == y;
                                        assert(ids@[wi] == y);
                                    }
                                }
                                assert forall|jj: int| 0 <= jj < j + 1 implies ids@.contains(#[trigger] nb@[jj]) by {
                                    if jj < j {
                                        let wi = choose|wi: int| 0 <= wi < o.len() && o[wi] == nb@[jj];
                                        assert(ids@[wi] == nb@[jj]);
                                    } else {
                                        assert(ids@[o.len() as int] == v);
                                    }
                                }
                                assert forall|jj: int| 0 <= jj < j + 1 implies exists|z: int|
                                    0 <= z < ids@.len() && ids@[z] == #[trigger] nb@[jj] && dist@[z] <= capped(
                                        du + step_cost(es, u, nb@[jj], prop),
                                    ) by {
                                    if jj < j {
                                        let z = choose|z: int|
                                            0 <= z < o.len() && o[z] == nb@[jj] && od[z] <= capped(du + step_cost(es, u, nb@[jj], prop));
                                        assert(ids@[z] == o[z] && dist@[z] == od[z]);
                                    } else {
                                        assert(ids@[o.len() as int] == v && dist@[o.len() as int] == nd);
                                    }
                                }
                                assert forall|i: int| 0 <= i < ids@.len() && #[trigger] settled@[i] implies dist@[i] <= du by {
                                    assert(i < o.len());
                                    assert(so[i]);
                                }
                            }
                        },
                        Some(p) => {
                            if !settled[p] && nd < dist[p] {
                                dist.set(p, nd);
                                par.set(p, c);
                                proof {
                                    cost = cost.update(p as int, oc[c as int] + w);
                                    assert(p != 0) by {
                                        if p == 0 {
                                            assert(settled@[0]);
                                        }
                                    }
                                    assert forall|i: int| 0 < i < o.len() implies #[trigger] settled@[op[i] as int] by {
                                        assert(op[i] == par@[i] || i == p as int);
                                    }
                                    assert forall|i: int| 0 < i < o.len() implies #[trigger] op[i] < o.len() by {
                                        assert(op[i] == op[i]);
                                    }
                                    lemma_update_keeps(m, es, prop, o, od, op, settled@, oc, start, c as int, p as int, nd, w);
                                    assert forall|i: int|
                                        #![trigger par@[i]]
                                        0 < i < ids@.len() implies par@[i] < ids@.len() && settled@[par@[i] as int]
                                            && neighbors(m, ids@[par@[i] as int]).contains(ids@[i]) && (settled@[i]
                                            ==> rank[par@[i] as int] < rank[i]) by {
                                        if i == p as int {
                                            assert(nb@[j as int] == v);
                                        }
                                    }
                                    assert forall|jj: int| 0 <= jj < j + 1 implies exists|z: int|
                                        0 <= z < ids@.len() && ids@[z] == #[trigger] nb@[jj] && dist@[z] <= capped(
                                            du + step_cost(es, u, nb@[jj], prop),
                                        ) by {
                                        if jj < j {
                                            let z = choose|z: int|
                                                0 <= z < o.len() && o[z] == nb@[jj] && od[z] <= capped(du + step_cost(es, u, nb@[jj], prop));
                                            if z == p as int {
                                                assert(dist@[z] == nd);
                                            } else {
                                                assert(dist@[z] == od[z]);
                                            }
                                        } else {
                                            assert(ids@[p as int] == v && dist@[p as int] == nd);
                                        }
                                    }
                                    assert forall|i: int| 0 <= i < ids@.len() && #[trigger] settled@[i] implies dist@[i] <= du by {
                                        assert(i != p as int);
                                        assert(dist@[i] == od[i]);
                                    }
                                }
                            } else {
                                proof {
                                    assert forall|jj: int| 0 <= jj < j + 1 implies exists|z: int|
                                        0 <= z < ids@.len() && ids@[z] == #[trigger] nb@[jj] && dist@[z] <= capped(
                                            du + step_cost(es, u, nb@[jj], prop),
                                        ) by {
                                        if jj == j {
                                            assert(ids@[p as int] == v);
                                            if settled@[p as int] {
                                                assert(dist@[p as int] <= du);
                                            }
                                        }
                                    }
                                }
                            }
                            proof {
                                assert(ids@[p as int] == nb@[j as int]);
                            }
                        },
                    }
                    j = j + 1;
                }
            },
            None => {},
        }
        proof {
            assert(relaxed(m, es, prop, ids@, dist@, c as int)) by {
                assert forall|v: u64| #[trigger] neighbors(m, ids@[c as int]).contains(v) implies exists|z: int|
                    0 <= z < ids@.len() && ids@[z] == v && dist@[z] <= capped(dist@[c as int] + step_cost(es, ids@[c as int], v, prop)) by {
                    let jj = choose|jj: int| 0 <= jj < neighbors(m, u).len() && neighbors(m, u)[jj] == v;
                }
            }
            lemma_restore_inv(m, es, prop, ids@, dist@, par@, settled@, cost, start, c as int);
        }
    }
    proof {
        assert forall|x: u64, y: u64| ids@.contains(x) && #[trigger] neighbors(m, x).contains(y) implies #[trigger] ids@.contains(y) by {
            let i = choose|i: int| 0 <= i < ids@.len() && ids@[i] == x;
            assert(settled@[i]);
        }
        assert(!ids@.contains(goal)) by {
            if ids@.contains(goal) {
                let i = choose|i: int| 0 <= i < ids@.len() && ids@[i] == goal;
                assert(settled@[i]);
            }
        }
        assert(ids@.contains(start)) by {
            assert(ids@[0] == start);
        }
        lemma_closed_set_blocks(m, ids@, start, goal);
    }
    Vec::new()
}

impl Graph {
    /// Breadth-first search from `start_id` for `end_id`: the returned path
    /// has the fewest edges among all paths.
    pub fn bfs(&self, start_id: u64, end_id: u64) -> (r: Vec<u64>)
        requires
            self.wf(),
        ensures
            shortest_result(adjacency_of(self.edge_seq()), r@, start_id, end_id),
    {
        let adj = self.adjacency_list();
        breadth_first(&adj, start_id, end_id)
    }

    /// Depth-first search from `start_id` for `end_id`.
    pub fn dfs(&self, start_id: u64, end_id: u64) -> (r: Vec<u64>)
        requires
            self.wf(),
        ensures
            search_result(adjacency_of(self.edge_seq()), r@, start_id, end_id),
    {
        let adj = self.adjacency_list();
        search(&adj, start_id, end_id, true)
    }

    /// Dijkstra's search from `start_id` for `end_id`, each edge weighing the
    /// decimal value of its property `property_name`, or 1.
    pub fn dijkstra(&self, start_id: u64, end_id: u64, property_name: &str) -> (r: Vec<u64>)
        requires
            self.wf(),
        ensures
            search_result(adjacency_of(self.edge_seq()), r@, start_id, end_id),
            forall|q: Seq<u64>|
                #[trigger] is_path(adjacency_of(self.edge_seq()), q, start_id, end_id) ==> capped(
                    path_cost(self.edge_seq(), r@, property_name@),
                ) <= path_cost(self.edge_seq(), q, property_name@),
    {
        let adj = self.adjacency_list();
        shortest_path(&adj, self.edges(), start_id, end_id, property_name)
    }
}


proof fn lemma_unit_least(es: Seq<EdgeView>, u: u64, v: u64, p: Seq<char>)
    requires
        forall|i: int| 0 <= i < es.len() ==> weight_of(#[trigger] es[i], p) == 1,
    ensures
        step_cost(es, u, v, p) == 1,
        least_in(es, u, v, p) is Some ==> least_in(es, u, v, p) == Some(1u64),
    decreases es.len(),
{
    if es.len() > 0 {
        assert forall|i: int| 0 <= i < es.drop_last().len() implies weight_of(#[trigger] es.drop_last()[i], p) == 1 by {
            assert(es.drop_last()[i] == es[i]);
        }
        lemma_unit_least(es.drop_last(), u, v, p);
        assert(weight_of(es[es.len() - 1], p) == 1);
    }
}

proof fn lemma_unit_path_cost(es: Seq<EdgeView>, q: Seq<u64>, p: Seq<char>)
    requires
        forall|i: int| 0 <= i < es.len() ==> weight_of(#[trigger] es[i], p) == 1,
        q.len() >= 1,
    ensures
        path_cost(es, q, p) == q.len() - 1,
    decreases q.len(),
{
    if q.len() > 1 {
        lemma_unit_path_cost(es, q.drop_last(), p);
        lemma_unit_least(es, q[q.len() - 2], q.last(), p);
    }
}

/// When every edge weighs 1, a weighted search result that costs no more
/// than any path has as many ids as a breadth-first result.
pub proof fn lemma_unit_weights_match_breadth_first(
    adj: Map<u64, Seq<u64>>,
    es: Seq<EdgeView>,
    prop: Seq<char>,
    w: Seq<u64>,
    b: Seq<u64>,
    start: u64,
    goal: u64,
)
    requires
        forall|i: int| 0 <= i < es.len() ==> weight_of(#[trigger] es[i], prop) == 1,
        search_result(adj, w, start, goal),
        forall|q: Seq<u64>| #[trigger] is_path(adj, q, start, goal) ==> capped(path_cost(es, w, prop)) <= path_cost(es, q, prop),
        shortest_result(adj, b, start, goal),
        w.len() <= usize::MAX,
    ensures
        w.len() == b.len(),
{
    if w.len() > 0 {
        assert(is_path(adj, w, start, goal));
        assert(b.len() > 0);
        assert(is_path(adj, b, start, goal));
        lemma_unit_path_cost(es, w, prop);
        lemma_unit_path_cost(es, b, prop);
        assert(w.len() - 1 < u64::MAX);
    } else {
        assert(!reachable(adj, start, goal));
        if b.len() > 0 {
            assert(is_path(adj, b, start, goal));
        }
    }
}

} // verus!
