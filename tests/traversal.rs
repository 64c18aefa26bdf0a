use graphdb::edge::Edge;
use graphdb::graph::Graph;
use graphdb::id_generator::IdGenerator;
use graphdb::node::Node;
use graphdb::properties::Properties;
use graphdb::text::parse_decimal;
use graphdb::traversal::edge_weight;

fn props(pairs: &[(&str, &str)]) -> Properties {
    let mut p = Properties::new();
    for (k, v) in pairs {
        p.insert(k.to_string(), v.to_string());
    }
    p
}

fn graph(nodes: &[u64], edges: &[(u64, u64, u64, &str)]) -> Graph {
    let mut g = Graph::new("g".to_string(), IdGenerator::new());
    for &n in nodes {
        g.add_full_node(Node::new(n, format!("n{}", n), Properties::new()));
    }
    for &(id, from, to, w) in edges {
        g.add_full_edge(Edge::new(id, "e".to_string(), from, to, props(&[("w", w)])));
    }
    g
}

fn is_path(g: &Graph, p: &[u64], start: u64, goal: u64) -> bool {
    let adj = g.adjacency_list();
    if p.is_empty() || p[0] != start || p[p.len() - 1] != goal {
        return false;
    }
    p.windows(2).all(|w| adj.iter().any(|(k, l)| *k == w[0] && l.contains(&w[1])))
}

#[test]
fn search_from_goal_to_itself() {
    let g = graph(&[1, 2], &[(1, 1, 2, "1")]);
    assert_eq!(g.bfs(1, 1), vec![1]);
    assert_eq!(g.dfs(1, 1), vec![1]);
    assert_eq!(g.dijkstra(1, 1, "w"), vec![1]);
    assert_eq!(g.bfs(7, 7), vec![7]);
}

#[test]
fn unreachable_goal_gives_empty_path() {
    let g = graph(&[1, 2, 3], &[(1, 1, 2, "1"), (2, 3, 1, "1")]);
    assert!(g.bfs(1, 3).is_empty());
    assert!(g.dfs(1, 3).is_empty());
    assert!(g.dijkstra(1, 3, "w").is_empty());
    assert!(g.bfs(1, 99).is_empty());
}

#[test]
fn chain_is_found_by_every_method() {
    let g = graph(&[1, 2, 3], &[(10, 1, 2, "5"), (11, 2, 3, "2")]);
    assert_eq!(g.bfs(1, 3), vec![1, 2, 3]);
    assert_eq!(g.dfs(1, 3), vec![1, 2, 3]);
    assert_eq!(g.dijkstra(1, 3, "w"), vec![1, 2, 3]);
}

#[test]
fn bfs_takes_fewest_hops() {
    // 1 -> 2 -> 3 -> 4 and a shortcut 1 -> 4
    let g = graph(&[1, 2, 3, 4], &[(1, 1, 2, "1"), (2, 2, 3, "1"), (3, 3, 4, "1"), (4, 1, 4, "1")]);
    assert_eq!(g.bfs(1, 4), vec![1, 4]);
    let d = g.dfs(1, 4);
    assert!(is_path(&g, &d, 1, 4));
    assert!(g.bfs(1, 4).len() <= d.len());
}

#[test]
fn dijkstra_prefers_lighter_route() {
    // direct edge weighs 10, the detour 1 + 2
    let g = graph(&[1, 2, 3], &[(1, 1, 3, "10"), (2, 1, 2, "1"), (3, 2, 3, "2")]);
    assert_eq!(g.dijkstra(1, 3, "w"), vec![1, 2, 3]);
    assert_eq!(g.bfs(1, 3), vec![1, 3]);
}

#[test]
fn dijkstra_with_unit_weights_matches_bfs_length() {
    let g = graph(&[1, 2, 3, 4, 5], &[(1, 1, 2, "1"), (2, 2, 3, "1"), (3, 3, 5, "1"), (4, 1, 4, "1"), (5, 4, 5, "1")]);
    assert_eq!(g.dijkstra(1, 5, "w").len(), g.bfs(1, 5).len());
}

#[test]
fn missing_or_bad_weights_count_as_one() {
    let e = Edge::new(1, "e".to_string(), 1, 2, props(&[("w", "abc")]));
    assert_eq!(edge_weight(&e, "w"), 1);
    assert_eq!(edge_weight(&e, "other"), 1);
    let e = Edge::new(1, "e".to_string(), 1, 2, props(&[("w", "42")]));
    assert_eq!(edge_weight(&e, "w"), 42);
}

#[test]
fn decimal_parsing() {
    assert_eq!(parse_decimal("0"), Some(0));
    assert_eq!(parse_decimal("+17"), Some(17));
    assert_eq!(parse_decimal("18446744073709551615"), Some(u64::MAX));
    assert_eq!(parse_decimal("18446744073709551616"), None);
    assert_eq!(parse_decimal(""), None);
    assert_eq!(parse_decimal("+"), None);
    assert_eq!(parse_decimal("-1"), None);
    assert_eq!(parse_decimal("1 2"), None);
}

#[test]
fn fifty_node_chain_with_branches() {
    let nodes: Vec<u64> = (1..=50).collect();
    let mut edges = Vec::new();
    let mut id = 1;
    for i in 1..50u64 {
        edges.push((id, i, i + 1, "1"));
        id += 1;
        if i + 5 <= 50 && i % 3 == 0 {
            edges.push((id, i, i + 5, "1"));
            id += 1;
        }
    }
    let g = graph(&nodes, &edges);
    let b = g.bfs(1, 50);
    let d = g.dfs(1, 50);
    assert!(!b.is_empty() && !d.is_empty());
    assert_eq!((b[0], *b.last().unwrap()), (1, 50));
    assert_eq!((d[0], *d.last().unwrap()), (1, 50));
    assert!(is_path(&g, &b, 1, 50) && is_path(&g, &d, 1, 50));
    assert!(b.len() <= d.len());
}

#[test]
fn cycles_do_not_loop_forever() {
    let g = graph(&[1, 2, 3, 4], &[(1, 1, 2, "1"), (2, 2, 1, "1"), (3, 2, 3, "1"), (4, 3, 2, "1")]);
    assert!(g.bfs(1, 4).is_empty());
    assert!(g.dfs(1, 4).is_empty());
    assert!(g.dijkstra(1, 4, "w").is_empty());
    assert_eq!(g.dfs(1, 3), vec![1, 2, 3]);
}
