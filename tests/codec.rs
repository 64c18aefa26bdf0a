use graphdb::codec::{decode_edge, decode_header, decode_node, encode_edge, encode_header, encode_node, GraphHeader};
use graphdb::edge::Edge;
use graphdb::node::Node;
use graphdb::properties::Properties;

fn props(pairs: &[(&str, &str)]) -> Properties {
    let mut p = Properties::new();
    for (k, v) in pairs {
        p.insert(k.to_string(), v.to_string());
    }
    p
}

#[test]
fn node_record_round_trip() {
    let n = Node::new(7, "Ünïcode label".to_string(), props(&[("a", "1"), ("ключ", "значение")]));
    let bytes = encode_node(&n);
    let back = decode_node(&bytes).unwrap();
    assert_eq!(back.id, 7);
    assert_eq!(back.label, n.label);
    assert_eq!(back.properties.len(), 2);
    assert_eq!(back.properties.get("ключ").unwrap(), "значение");
}

#[test]
fn node_record_round_trip_with_padding() {
    let n = Node::new(3, "A".to_string(), Properties::new());
    let mut bytes = encode_node(&n);
    bytes.resize(1024, 0);
    let back = decode_node(&bytes).unwrap();
    assert_eq!(back.id, 3);
    assert_eq!(back.label, "A");
    assert_eq!(back.properties.len(), 0);
}

#[test]
fn edge_record_round_trip() {
    let e = Edge::new(11, "x".to_string(), 2, 3, props(&[("w", "5")]));
    let back = decode_edge(&encode_edge(&e)).unwrap();
    assert_eq!((back.id, back.from, back.to), (11, 2, 3));
    assert_eq!(back.label, "x");
    assert_eq!(back.properties.get("w").unwrap(), "5");
}

#[test]
fn header_round_trip() {
    let h = GraphHeader {
        name: "g".to_string(),
        next_node_id: 4,
        next_edge_id: 9,
        node_count: 3,
        edge_count: 8,
        first_node_position: 1024,
        first_edge_position: 5120,
        deleted_nodes: vec![2],
        deleted_edges: vec![1, 5],
    };
    let back = decode_header(&encode_header(&h)).unwrap();
    assert_eq!(back.name, "g");
    assert_eq!((back.next_node_id, back.next_edge_id, back.node_count, back.edge_count), (4, 9, 3, 8));
    assert_eq!((back.first_node_position, back.first_edge_position), (1024, 5120));
    assert_eq!(back.deleted_nodes, vec![2]);
    assert_eq!(back.deleted_edges, vec![1, 5]);
}

#[test]
fn node_record_layout_matches_bincode() {
    let n = Node::new(5, "Ab".to_string(), props(&[("k", "v")]));
    let expected = bincode::serialize(&(5u64, "Ab".to_string(), vec![("k".to_string(), "v".to_string())])).unwrap();
    assert_eq!(encode_node(&n), expected);
}

#[test]
fn edge_record_layout_matches_bincode() {
    let e = Edge::new(1, "x".to_string(), 2, 3, Properties::new());
    let expected = bincode::serialize(&(1u64, "x".to_string(), 2u64, 3u64, Vec::<(String, String)>::new())).unwrap();
    assert_eq!(encode_edge(&e), expected);
}

#[test]
fn truncated_or_invalid_records_are_rejected() {
    let n = Node::new(5, "Ab".to_string(), props(&[("k", "v")]));
    let bytes = encode_node(&n);
    assert!(decode_node(&bytes[..bytes.len() - 1]).is_none());
    assert!(decode_node(&[]).is_none());
    let mut bad = bytes.clone();
    bad[16] = 0xff;
    assert!(decode_node(&bad).is_none());
}

#[test]
fn repeated_property_key_is_rejected() {
    let mut bytes = bincode::serialize(&(1u64, "A".to_string(), vec![("k".to_string(), "1".to_string()), ("k".to_string(), "2".to_string())])).unwrap();
    assert!(decode_node(&bytes).is_none());
    bytes = bincode::serialize(&(1u64, "A".to_string(), vec![("k".to_string(), "1".to_string()), ("j".to_string(), "2".to_string())])).unwrap();
    assert!(decode_node(&bytes).is_some());
}
