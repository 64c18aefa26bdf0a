use graphdb::edge::{CreateEdgeDTO, Edge};
use graphdb::graph::Graph;
use graphdb::id_generator::IdGenerator;
use graphdb::node::{CreateNodeDTO, Node};
use graphdb::properties::Properties;

fn props(pairs: &[(&str, &str)]) -> Properties {
    let mut p = Properties::new();
    for (k, v) in pairs {
        p.insert(k.to_string(), v.to_string());
    }
    p
}

fn three_node_graph() -> Graph {
    let mut g = Graph::new("g".to_string(), IdGenerator::new());
    g.add_full_node(Node::new(1, "A".to_string(), Properties::new()));
    g.add_full_node(Node::new(2, "B".to_string(), Properties::new()));
    g.add_full_node(Node::new(3, "C".to_string(), Properties::new()));
    g.add_full_edge(Edge::new(10, "x".to_string(), 1, 2, Properties::new()));
    g.add_full_edge(Edge::new(11, "x".to_string(), 2, 3, Properties::new()));
    g
}

#[test]
fn add_node_allocates_consecutive_ids() {
    let mut g = Graph::new("g".to_string(), IdGenerator::new());
    let a = g.add_node(&CreateNodeDTO::new("A".to_string(), Properties::new()));
    let b = g.add_node(&CreateNodeDTO::new("B".to_string(), Properties::new()));
    assert_eq!(a.id, 1);
    assert_eq!(b.id, 2);
    assert_eq!(g.id_generator().next_node_id(), 3);
}

#[test]
fn id_generator_counts_from_restored_values() {
    let mut ids = IdGenerator::from(7, 40);
    assert_eq!(ids.generate_node_id(), 7);
    assert_eq!(ids.generate_node_id(), 8);
    assert_eq!(ids.generate_edge_id(), 40);
    assert_eq!(ids.next_node_id(), 9);
    assert_eq!(ids.next_edge_id(), 41);
}

#[test]
fn add_full_node_keeps_allocator_ahead() {
    let mut g = Graph::new("g".to_string(), IdGenerator::new());
    g.add_full_node(Node::new(41, "A".to_string(), Properties::new()));
    assert_eq!(g.id_generator().next_node_id(), 42);
    let n = g.add_node(&CreateNodeDTO::new("B".to_string(), Properties::new()));
    assert_eq!(n.id, 42);
    g.add_full_node(Node::new(5, "C".to_string(), Properties::new()));
    assert_eq!(g.id_generator().next_node_id(), 43);
}

#[test]
fn add_full_node_replaces_same_id() {
    let mut g = Graph::new("g".to_string(), IdGenerator::new());
    g.add_full_node(Node::new(1, "A".to_string(), Properties::new()));
    g.add_full_node(Node::new(1, "Z".to_string(), Properties::new()));
    assert_eq!(g.nodes().len(), 1);
    assert_eq!(g.get_node(1).unwrap().label, "Z");
}

#[test]
fn nodes_are_kept_in_id_order() {
    let mut g = Graph::new("g".to_string(), IdGenerator::new());
    for id in [5u64, 2, 9, 1] {
        g.add_full_node(Node::new(id, "n".to_string(), Properties::new()));
    }
    let ids: Vec<u64> = g.nodes().iter().map(|n| n.id).collect();
    assert_eq!(ids, vec![1, 2, 5, 9]);
}

#[test]
fn update_node_replaces_label_and_properties() {
    let mut g = Graph::new("g".to_string(), IdGenerator::new());
    g.add_full_node(Node::new(1, "A".to_string(), props(&[("a", "1"), ("b", "2")])));
    g.update_node(Node::new(1, "A2".to_string(), props(&[("b", "3"), ("c", "4")])));
    let n = g.get_node(1).unwrap();
    assert_eq!(n.label, "A2");
    assert!(n.properties.get("a").is_none());
    assert_eq!(n.properties.get("b").unwrap(), "3");
    assert_eq!(n.properties.get("c").unwrap(), "4");
    assert_eq!(n.properties.len(), 2);
}

#[test]
fn update_of_missing_node_changes_nothing() {
    let mut g = three_node_graph();
    g.update_node(Node::new(99, "Q".to_string(), Properties::new()));
    assert!(g.get_node(99).is_none());
    assert_eq!(g.nodes().len(), 3);
}

#[test]
fn update_edge_replaces_the_edge() {
    let mut g = three_node_graph();
    g.update_edge(Edge::new(10, "y".to_string(), 3, 3, props(&[("w", "5")])));
    let e = g.get_edge(10).unwrap();
    assert_eq!(e.label, "y");
    assert_eq!((e.from, e.to), (3, 3));
    assert_eq!(e.properties.get("w").unwrap(), "5");
}

#[test]
fn delete_node_leaves_edges() {
    let mut g = three_node_graph();
    g.delete_node(2);
    assert!(g.get_node(2).is_none());
    assert_eq!(g.edges().len(), 2);
    g.delete_edge(10);
    assert!(g.get_edge(10).is_none());
    assert_eq!(g.edges().len(), 1);
}

#[test]
fn adjacency_list_of_chain() {
    let g = three_node_graph();
    let adj = g.adjacency_list();
    assert_eq!(adj, vec![(1, vec![2]), (2, vec![3])]);
}

#[test]
fn adjacency_keeps_parallel_edges_in_id_order() {
    let mut g = three_node_graph();
    g.add_full_edge(Edge::new(12, "x".to_string(), 1, 3, Properties::new()));
    g.add_full_edge(Edge::new(13, "x".to_string(), 1, 2, Properties::new()));
    let adj = g.adjacency_list();
    assert_eq!(adj, vec![(1, vec![2, 3, 2]), (2, vec![3])]);
}

#[test]
fn relations_list_skips_edges_with_missing_endpoints() {
    let mut g = three_node_graph();
    g.add_full_edge(Edge::new(12, "y".to_string(), 3, 77, Properties::new()));
    let rel = g.relations_list();
    assert_eq!(rel.len(), 2);
    assert_eq!(rel[0].0, 1);
    let r = &rel[0].1[0];
    assert_eq!((r.from_node_id, r.from_node_label.as_str(), r.edge_label.as_str(), r.to_node_id, r.to_node_label.as_str()), (1, "A", "x", 2, "B"));
    let r = &rel[1].1[0];
    assert_eq!((r.from_node_id, r.to_node_id, r.to_node_label.as_str()), (2, 3, "C"));
}

#[test]
fn projections_ignore_insertion_order() {
    let g1 = three_node_graph();
    let mut g2 = Graph::new("other".to_string(), IdGenerator::from(50, 50));
    g2.add_full_edge(Edge::new(11, "x".to_string(), 2, 3, Properties::new()));
    g2.add_full_node(Node::new(3, "C".to_string(), Properties::new()));
    g2.add_full_edge(Edge::new(10, "x".to_string(), 1, 2, Properties::new()));
    g2.add_full_node(Node::new(2, "B".to_string(), Properties::new()));
    g2.add_full_node(Node::new(1, "A".to_string(), Properties::new()));
    assert_eq!(g1.adjacency_list(), g2.adjacency_list());
    let r1 = g1.relations_list();
    let r2 = g2.relations_list();
    assert_eq!(r1.len(), r2.len());
    for i in 0..r1.len() {
        assert_eq!(r1[i].0, r2[i].0);
        assert_eq!(r1[i].1.len(), r2[i].1.len());
        assert_eq!(r1[i].1[0].edge_label, r2[i].1[0].edge_label);
    }
}

#[test]
fn clone_is_a_snapshot() {
    let g = three_node_graph();
    let mut c = g.clone();
    c.delete_node(1);
    assert!(g.get_node(1).is_some());
    assert_eq!(c.name(), "g");
    assert_eq!(c.id_generator().next_edge_id(), 12);
}

#[test]
fn ids_stay_below_allocator_after_mutations() {
    let mut g = three_node_graph();
    g.add_node(&CreateNodeDTO::new("D".to_string(), Properties::new()));
    g.add_edge(&CreateEdgeDTO::new("x".to_string(), 1, 4, Properties::new()));
    g.delete_node(2);
    let next_node = g.id_generator().next_node_id();
    let next_edge = g.id_generator().next_edge_id();
    assert!(g.nodes().iter().all(|n| n.id < next_node));
    assert!(g.edges().iter().all(|e| e.id < next_edge));
}

#[test]
fn properties_insert_replaces_value() {
    let mut p = Properties::new();
    p.insert("k".to_string(), "1".to_string());
    p.insert("k".to_string(), "2".to_string());
    assert_eq!(p.len(), 1);
    assert_eq!(p.get("k").unwrap(), "2");
    assert!(p.contains_key("k"));
    assert!(!p.contains_key("q"));
}
