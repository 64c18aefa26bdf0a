use graphdb::edge::Edge;
use graphdb::gph_file::{
    append_edge, append_node, load_graph, mark_edge_as_deleted, mark_node_as_deleted, new_file, read_header,
    update_edge, update_node, FileError, BLOCK_SIZE, HEADER_SIZE,
};
use graphdb::node::Node;
use graphdb::properties::Properties;

fn node(id: u64, label: &str) -> Node {
    Node::new(id, label.to_string(), Properties::new())
}

fn edge(id: u64, from: u64, to: u64) -> Edge {
    Edge::new(id, "x".to_string(), from, to, Properties::new())
}

#[test]
fn fresh_file_has_one_header_and_no_records() {
    let f = new_file("g").unwrap();
    assert_eq!(f.len() as u64, HEADER_SIZE);
    let h = read_header(&f).unwrap();
    assert_eq!(h.name, "g");
    assert_eq!((h.next_node_id, h.next_edge_id, h.node_count, h.edge_count), (1, 1, 0, 0));
    assert_eq!(h.first_edge_position, HEADER_SIZE + BLOCK_SIZE);
    let g = load_graph(&f).unwrap();
    assert_eq!(g.nodes().len(), 0);
    assert_eq!(g.name(), "g");
}

#[test]
fn appended_records_reload() {
    let mut f = new_file("g").unwrap();
    append_node(&mut f, &node(1, "A")).unwrap();
    append_node(&mut f, &node(2, "B")).unwrap();
    append_edge(&mut f, &edge(10, 1, 2)).unwrap();
    let h = read_header(&f).unwrap();
    assert_eq!((h.node_count, h.edge_count, h.next_node_id, h.next_edge_id), (2, 1, 3, 11));
    let g = load_graph(&f).unwrap();
    assert_eq!(g.nodes().len(), 2);
    assert_eq!(g.get_node(2).unwrap().label, "B");
    assert_eq!(g.get_edge(10).unwrap().to, 2);
    assert_eq!(g.id_generator().next_node_id(), 3);
}

#[test]
fn node_region_full_slides_first_edge_to_the_end() {
    let mut f = new_file("g").unwrap();
    append_node(&mut f, &node(1, "A")).unwrap();
    append_edge(&mut f, &edge(10, 1, 1)).unwrap();
    append_edge(&mut f, &edge(11, 1, 1)).unwrap();
    let before = read_header(&f).unwrap();
    append_node(&mut f, &node(2, "B")).unwrap();
    let after = read_header(&f).unwrap();
    assert_eq!(after.first_edge_position, before.first_edge_position + BLOCK_SIZE);
    let g = load_graph(&f).unwrap();
    assert!(g.get_edge(10).is_some());
    assert!(g.get_edge(11).is_some());
    assert_eq!(g.nodes().len(), 2);
    append_node(&mut f, &node(3, "C")).unwrap();
    let g = load_graph(&f).unwrap();
    assert_eq!(g.edges().len(), 2);
    assert_eq!(g.nodes().len(), 3);
}

#[test]
fn oversized_record_is_refused_and_file_kept() {
    let mut f = new_file("g").unwrap();
    append_node(&mut f, &node(1, "A")).unwrap();
    let before = f.clone();
    let big = Node::new(2, "x".repeat(2000), Properties::new());
    assert!(matches!(append_node(&mut f, &big), Err(FileError::Oversized)));
    assert_eq!(f, before);
}

#[test]
fn garbage_is_corrupt() {
    let mut f = vec![0u8; 10];
    assert!(matches!(append_node(&mut f, &node(1, "A")), Err(FileError::Corrupt)));
    assert!(matches!(load_graph(&f), Err(FileError::Corrupt)));
}

#[test]
fn marking_deleted_twice_changes_nothing_more() {
    let mut f = new_file("g").unwrap();
    append_node(&mut f, &node(1, "A")).unwrap();
    append_node(&mut f, &node(2, "B")).unwrap();
    mark_node_as_deleted(&mut f, 1).unwrap();
    let once = f.clone();
    mark_node_as_deleted(&mut f, 1).unwrap();
    assert_eq!(f, once);
    assert_eq!(read_header(&f).unwrap().deleted_nodes, vec![1]);
    let g = load_graph(&f).unwrap();
    assert!(g.get_node(1).is_none());
    assert!(g.get_node(2).is_some());
}

#[test]
fn deleted_edges_are_skipped_on_load() {
    let mut f = new_file("g").unwrap();
    append_node(&mut f, &node(1, "A")).unwrap();
    append_edge(&mut f, &edge(10, 1, 1)).unwrap();
    mark_edge_as_deleted(&mut f, 10).unwrap();
    let g = load_graph(&f).unwrap();
    assert!(g.get_edge(10).is_none());
    assert_eq!(g.id_generator().next_edge_id(), 11);
}

#[test]
fn update_rewrites_slot_in_place() {
    let mut f = new_file("g").unwrap();
    append_node(&mut f, &node(1, "A")).unwrap();
    append_node(&mut f, &node(2, "B")).unwrap();
    append_edge(&mut f, &edge(10, 1, 2)).unwrap();
    let len = f.len();
    update_node(&mut f, &node(2, "B2")).unwrap();
    update_edge(&mut f, &Edge::new(10, "y".to_string(), 1, 2, Properties::new())).unwrap();
    assert_eq!(f.len(), len);
    let g = load_graph(&f).unwrap();
    assert_eq!(g.get_node(2).unwrap().label, "B2");
    assert_eq!(g.get_edge(10).unwrap().label, "y");
    assert!(matches!(update_node(&mut f, &node(9, "Q")), Err(FileError::RecordNotFound)));
}
