use graphdb::auth::AuthManager;
use graphdb::disk_storage::{DiskError, DiskStorage};
use graphdb::edge::Edge;
use graphdb::gph_file::FileError;
use graphdb::node::Node;
use graphdb::edge::CreateEdgeDTO;
use graphdb::graph_error::GraphError;
use graphdb::graph_service::GraphService;
use graphdb::manager::{StorageManager, WriteOperation};
use graphdb::node::CreateNodeDTO;
use graphdb::properties::Properties;

fn props(pairs: &[(&str, &str)]) -> Properties {
    let mut p = Properties::new();
    for (k, v) in pairs {
        p.insert(k.to_string(), v.to_string());
    }
    p
}

fn service() -> GraphService {
    GraphService::new(StorageManager::new(DiskStorage::new()))
}

fn chain_service() -> GraphService {
    let mut s = service();
    s.create_graph("g".to_string()).unwrap();
    s.add_node("g".to_string(), 1, "A".to_string(), Properties::new()).unwrap();
    s.add_node("g".to_string(), 2, "B".to_string(), Properties::new()).unwrap();
    s.add_node("g".to_string(), 3, "C".to_string(), Properties::new()).unwrap();
    s.add_edge("g".to_string(), 10, 1, 2, "x".to_string(), props(&[("w", "5")])).unwrap();
    s.add_edge("g".to_string(), 11, 2, 3, "x".to_string(), props(&[("w", "2")])).unwrap();
    s
}

#[test]
fn chain_scenario_adjacency_and_searches() {
    let mut s = chain_service();
    let adj = s.get_graph_adjacency("g".to_string()).unwrap();
    assert_eq!(adj, vec![(1, vec![2]), (2, vec![3])]);
    assert_eq!(s.search_path("g".to_string(), "bfs".to_string(), 1, 3, String::new()).unwrap(), vec![1, 2, 3]);
    assert_eq!(s.search_path("g".to_string(), "dfs".to_string(), 1, 3, String::new()).unwrap(), vec![1, 2, 3]);
}

#[test]
fn chain_scenario_weighted_search() {
    let mut s = chain_service();
    let p = s.search_path("g".to_string(), "dijkstra".to_string(), 1, 3, "w".to_string()).unwrap();
    assert_eq!(p, vec![1, 2, 3]);
    let g = s.get_graph("g").unwrap();
    let cost: u64 = p
        .windows(2)
        .map(|w| {
            let e = g.edges().iter().find(|e| e.from == w[0] && e.to == w[1]).unwrap();
            graphdb::traversal::edge_weight(e, "w")
        })
        .sum();
    assert_eq!(cost, 7);
}

#[test]
fn search_origin_equals_goal_and_unreachable() {
    let mut s = chain_service();
    assert_eq!(s.search_path("g".to_string(), "bfs".to_string(), 2, 2, String::new()).unwrap(), vec![2]);
    assert!(s.search_path("g".to_string(), "bfs".to_string(), 3, 1, String::new()).unwrap().is_empty());
}

#[test]
fn unknown_method_is_refused() {
    let mut s = chain_service();
    let r = s.search_path("g".to_string(), "astar".to_string(), 1, 3, String::new());
    assert!(matches!(r, Err(GraphError::MethodNotSupported(m)) if m == "astar"));
}

#[test]
fn unknown_graph_is_refused() {
    let mut s = service();
    assert!(matches!(s.get_graph_adjacency("nope".to_string()), Err(GraphError::GraphNotFound(n)) if n == "nope"));
    assert!(matches!(s.search_path("nope".to_string(), "bfs".to_string(), 1, 1, String::new()), Err(GraphError::GraphNotFound(_))));
    assert!(matches!(s.add_node("nope".to_string(), 1, "A".to_string(), Properties::new()), Err(GraphError::GraphNotFound(_))));
}

#[test]
fn duplicate_graph_node_and_edge_are_refused() {
    let mut s = chain_service();
    assert!(matches!(s.create_graph("g".to_string()), Err(GraphError::GraphAlreadyExists(n)) if n == "g"));
    assert!(matches!(s.add_node("g".to_string(), 2, "Z".to_string(), Properties::new()), Err(GraphError::NodeAlreadyExists(2))));
    assert!(matches!(s.add_edge("g".to_string(), 10, 1, 3, "y".to_string(), Properties::new()), Err(GraphError::EdgeAlreadyExists(10))));
}

#[test]
fn edge_with_missing_endpoint_is_refused() {
    let mut s = service();
    s.create_graph("g2".to_string()).unwrap();
    let r = s.add_edge("g2".to_string(), 1, 99, 100, "x".to_string(), Properties::new());
    assert!(matches!(r, Err(GraphError::NodeNotFound(99))));
    assert_eq!(s.get_graph("g2").unwrap().edges().len(), 0);
    let r = s.add_edges("g2".to_string(), vec![CreateEdgeDTO::new("x".to_string(), 99, 100, Properties::new())]);
    assert!(matches!(r, Err(GraphError::NodeNotFound(99))));
    assert_eq!(s.get_graph("g2").unwrap().edges().len(), 0);
}

#[test]
fn relations_are_listed() {
    let mut s = chain_service();
    let rel = s.get_graph_relations("g".to_string()).unwrap();
    assert_eq!(rel.len(), 2);
    assert_eq!((rel[0].from_node_label.as_str(), rel[0].edge_label.as_str(), rel[0].to_node_label.as_str()), ("A", "x", "B"));
    assert_eq!((rel[1].from_node_id, rel[1].to_node_id), (2, 3));
}

#[test]
fn allocated_ids_are_unique_and_consecutive() {
    let mut s = service();
    s.create_graph("big".to_string()).unwrap();
    let data: Vec<CreateNodeDTO> = (0..1000).map(|i| CreateNodeDTO::new(format!("n{}", i), Properties::new())).collect();
    let created = s.add_nodes("big".to_string(), data).unwrap();
    assert_eq!(created.len(), 1000);
    for (i, n) in created.iter().enumerate() {
        assert_eq!(n.id, i as u64 + 1);
    }
    let touched = s.flush_to_disk();
    assert_eq!(touched.len(), 1001);
    let g = s.get_graph("big").unwrap();
    assert_eq!(g.nodes().len(), 1000);
    let disk_graph = s.storage_manager().disk_storage().get_graph("big").unwrap().unwrap();
    assert_eq!(disk_graph.nodes().len(), 1000);
    let more = s.add_nodes("big".to_string(), vec![CreateNodeDTO::new("x".to_string(), Properties::new())]).unwrap();
    assert_eq!(more[0].id, 1001);
}

#[test]
fn add_edges_allocates_ids() {
    let mut s = chain_service();
    let es = s
        .add_edges("g".to_string(), vec![CreateEdgeDTO::new("y".to_string(), 3, 1, Properties::new())])
        .unwrap();
    assert_eq!(es[0].id, 12);
    assert_eq!(s.search_path("g".to_string(), "bfs".to_string(), 3, 2, String::new()).unwrap(), vec![3, 1, 2]);
}

#[test]
fn restart_reloads_from_disk() {
    let mut s = service();
    s.create_graph("g3".to_string()).unwrap();
    s.add_node("g3".to_string(), 5, "A".to_string(), Properties::new()).unwrap();
    s.flush_to_disk();
    let bytes = s.storage_manager().disk_storage().file("g3").unwrap().clone();
    let mut disk = DiskStorage::new();
    disk.load_file("g3".to_string(), bytes);
    let mut restarted = GraphService::new(StorageManager::new(disk));
    let names = restarted.list_graphs();
    assert!(names.iter().any(|n| n == "g3"));
    let g = restarted.get_graph("g3").unwrap();
    assert_eq!(g.nodes().len(), 1);
    assert!(g.nodes().iter().all(|n| n.id < g.id_generator().next_node_id()));
    let n = restarted.add_nodes("g3".to_string(), vec![CreateNodeDTO::new("B".to_string(), Properties::new())]).unwrap();
    assert_eq!(n[0].id, 6);
}

#[test]
fn drained_tiers_agree() {
    let mut s = chain_service();
    s.flush_to_disk();
    let mem = s.get_graph("g").unwrap();
    let disk = s.storage_manager().disk_storage().get_graph("g").unwrap().unwrap();
    assert_eq!(mem.adjacency_list(), disk.adjacency_list());
    assert_eq!(mem.nodes().len(), disk.nodes().len());
    for (a, b) in mem.nodes().iter().zip(disk.nodes().iter()) {
        assert_eq!(a.id, b.id);
        assert_eq!(a.label, b.label);
    }
}

#[test]
fn deleted_graph_is_gone_from_both_tiers() {
    let mut m = StorageManager::new(DiskStorage::new());
    m.enqueue(WriteOperation::CreateGraph("d".to_string()));
    m.process_memory_queue();
    m.process_disk_queue();
    assert!(m.get_graph("d").is_some());
    m.enqueue(WriteOperation::DeleteGraph("d".to_string()));
    m.process_memory_queue();
    m.process_disk_queue();
    assert!(m.get_graph("d").is_none());
    assert!(m.disk_storage().file("d").is_none());
    assert!(m.list_graph_names().is_empty());
}

#[test]
fn create_then_delete_restores_store() {
    let mut m = StorageManager::new(DiskStorage::new());
    m.enqueue(WriteOperation::CreateGraph("keep".to_string()));
    m.process_memory_queue();
    m.process_disk_queue();
    let before = m.disk_storage().file("keep").unwrap().clone();
    m.enqueue(WriteOperation::CreateGraph("tmp".to_string()));
    m.enqueue(WriteOperation::DeleteGraph("tmp".to_string()));
    m.process_memory_queue();
    m.process_disk_queue();
    assert_eq!(m.list_graph_names(), vec!["keep".to_string()]);
    assert_eq!(m.disk_storage().list_graph_names(), vec!["keep".to_string()]);
    assert_eq!(m.disk_storage().file("keep").unwrap(), &before);
}

#[test]
fn writes_reach_memory_before_disk() {
    let mut m = StorageManager::new(DiskStorage::new());
    m.enqueue(WriteOperation::CreateGraph("w".to_string()));
    m.process_memory_queue();
    assert!(m.disk_storage().file("w").is_none());
    assert!(m.get_graph("w").is_some());
    let names = m.process_disk_queue();
    assert_eq!(names, vec!["w".to_string()]);
    assert!(m.disk_storage().file("w").is_some());
}

#[test]
fn built_in_credential() {
    let a = AuthManager::new();
    assert!(a.authenticate("admin", "admin"));
    assert!(!a.authenticate("admin", "root"));
    assert!(!a.authenticate("guest", "admin"));
}

#[test]
fn manager_mutators_reach_both_tiers() {
    let mut m = StorageManager::new(DiskStorage::new());
    m.create_graph("m".to_string());
    m.add_node("m".to_string(), Node::new(1, "A".to_string(), Properties::new()));
    m.add_node("m".to_string(), Node::new(2, "B".to_string(), Properties::new()));
    m.add_edge("m".to_string(), Edge::new(5, "x".to_string(), 1, 2, Properties::new()));
    m.update_node("m".to_string(), Node::new(2, "B2".to_string(), props(&[("k", "v")])));
    m.update_edge("m".to_string(), Edge::new(5, "y".to_string(), 1, 2, Properties::new()));
    m.delete_node("m".to_string(), 1);
    m.process_memory_queue();
    m.process_disk_queue();
    let mem = m.get_graph("m").unwrap();
    let disk = m.disk_storage().get_graph("m").unwrap().unwrap();
    for g in [&mem, &disk] {
        assert!(g.get_node(1).is_none());
        assert_eq!(g.get_node(2).unwrap().label, "B2");
        assert_eq!(g.get_edge(5).unwrap().label, "y");
    }
    assert_eq!(disk.get_node(2).unwrap().properties.get("k").unwrap(), "v");
    m.delete_edge("m".to_string(), 5);
    m.process_memory_queue();
    m.process_disk_queue();
    assert!(m.get_graph("m").unwrap().get_edge(5).is_none());
    assert!(m.disk_storage().get_graph("m").unwrap().unwrap().get_edge(5).is_none());
}

#[test]
fn disk_tier_refuses_duplicate_and_unknown_graphs() {
    let mut d = DiskStorage::new();
    d.create_graph("a").unwrap();
    assert!(matches!(d.create_graph("a"), Err(DiskError::GraphAlreadyExists)));
    assert!(matches!(d.append_node("b", &Node::new(1, "A".to_string(), Properties::new())), Err(DiskError::GraphNotFound)));
    assert!(d.get_graph("b").unwrap().is_none());
    d.process_write_operation(&WriteOperation::DeleteGraph("a".to_string()));
    assert!(d.file("a").is_none());
}

#[test]
fn disk_tier_outcomes_are_the_promised_ones() {
    let mut d = DiskStorage::new();
    assert!(matches!(d.create_graph(&"n".repeat(2000)), Err(DiskError::File(FileError::HeaderFull))));
    d.create_graph("g").unwrap();
    d.append_node("g", &Node::new(1, "A".to_string(), Properties::new())).unwrap();
    let before = d.file("g").unwrap().clone();
    let big = Node::new(2, "x".repeat(2000), Properties::new());
    assert!(matches!(d.append_node("g", &big), Err(DiskError::File(FileError::Oversized))));
    assert_eq!(d.file("g").unwrap(), &before);
    assert!(matches!(
        d.update_node("g", &Node::new(9, "Q".to_string(), Properties::new())),
        Err(DiskError::File(FileError::RecordNotFound))
    ));
    d.mark_node_as_deleted("g", 1).unwrap();
    let marked = d.file("g").unwrap().clone();
    d.mark_node_as_deleted("g", 1).unwrap();
    assert_eq!(d.file("g").unwrap(), &marked);
}

#[test]
fn slide_keeps_every_edge_through_the_disk_tier() {
    let mut d = DiskStorage::new();
    d.create_graph("g").unwrap();
    d.append_node("g", &Node::new(1, "A".to_string(), Properties::new())).unwrap();
    for id in 10..13u64 {
        d.append_edge("g", &Edge::new(id, "x".to_string(), 1, 1, Properties::new())).unwrap();
    }
    let before = d.get_graph("g").unwrap().unwrap();
    d.append_node("g", &Node::new(2, "B".to_string(), Properties::new())).unwrap();
    let after = d.get_graph("g").unwrap().unwrap();
    assert_eq!(after.edges().len(), before.edges().len());
    for id in 10..13u64 {
        assert!(after.get_edge(id).is_some());
    }
    assert_eq!(after.nodes().len(), 2);
}

#[test]
fn tiers_agree_after_updates_and_deletes() {
    let mut m = StorageManager::new(DiskStorage::new());
    m.create_graph("t".to_string());
    m.add_node("t".to_string(), Node::new(1, "A".to_string(), props(&[("a", "1")])));
    m.add_node("t".to_string(), Node::new(2, "B".to_string(), Properties::new()));
    m.add_edge("t".to_string(), Edge::new(7, "x".to_string(), 1, 2, props(&[("w", "3")])));
    m.update_node("t".to_string(), Node::new(1, "A2".to_string(), Properties::new()));
    m.update_edge("t".to_string(), Edge::new(7, "z".to_string(), 2, 1, Properties::new()));
    m.delete_node("t".to_string(), 2);
    m.process_memory_queue();
    m.process_disk_queue();
    let mem = m.get_graph("t").unwrap();
    let disk = m.disk_storage().get_graph("t").unwrap().unwrap();
    for g in [&mem, &disk] {
        let n = g.get_node(1).unwrap();
        assert_eq!(n.label, "A2");
        assert_eq!(n.properties.len(), 0);
        assert!(g.get_node(2).is_none());
        let e = g.get_edge(7).unwrap();
        assert_eq!((e.label.as_str(), e.from, e.to, e.properties.len()), ("z", 2, 1, 0));
    }
    assert_eq!(mem.nodes().len(), disk.nodes().len());
    assert_eq!(mem.edges().len(), disk.edges().len());
}
