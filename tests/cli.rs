use graphdb::cli::{parse_command, parse_properties, split_command_line, Command};

#[test]
fn splits_on_whitespace_and_keeps_quoted_spaces() {
    assert_eq!(
        split_command_line("add node  g 1 \"hello world\" 'a b'\tk=v\n"),
        vec!["add", "node", "g", "1", "hello world", "a b", "k=v"]
    );
}

#[test]
fn empty_and_blank_lines_have_no_tokens() {
    assert!(split_command_line("").is_empty());
    assert!(split_command_line("   \t ").is_empty());
}

#[test]
fn unterminated_quote_runs_to_the_end() {
    assert_eq!(split_command_line("create graph \"my graph"), vec!["create", "graph", "my graph"]);
    assert_eq!(split_command_line("x\"y z\""), vec!["x\"y", "z\""]);
    assert_eq!(split_command_line("\"\""), vec![""]);
}

#[test]
fn properties_split_at_first_equals() {
    let args: Vec<String> = vec!["a=1".into(), "b=x=y".into(), "plain".into(), "a=2".into()];
    let p = parse_properties(&args);
    assert_eq!(p.len(), 2);
    assert_eq!(p.get("a").unwrap(), "2");
    assert_eq!(p.get("b").unwrap(), "x=y");
}

#[test]
fn commands_are_recognised() {
    assert!(matches!(parse_command("exit"), Command::Exit));
    assert!(matches!(parse_command("create graph g"), Command::CreateGraph { name } if name == "g"));
    assert!(matches!(parse_command("list graphs"), Command::ListGraphs));
    assert!(matches!(parse_command("print graph adjacency g"), Command::PrintGraphAdjacency { graph_name } if graph_name == "g"));
    assert!(matches!(parse_command("print graph relations g"), Command::PrintGraphRelations { graph_name } if graph_name == "g"));
    match parse_command("add node g 4 Person name=\"Ann Lee\"") {
        Command::AddNode { graph_name, node_id, label, properties } => {
            assert_eq!((graph_name.as_str(), node_id, label.as_str()), ("g", 4, "Person"));
            assert_eq!(properties.get("name").unwrap(), "\"Ann");
        }
        _ => panic!("not an add node command"),
    }
    match parse_command("add edge g 9 1 2 knows since=2020") {
        Command::AddEdge { graph_name, edge_id, from, to, label, properties } => {
            assert_eq!((graph_name.as_str(), edge_id, from, to, label.as_str()), ("g", 9, 1, 2, "knows"));
            assert_eq!(properties.get("since").unwrap(), "2020");
        }
        _ => panic!("not an add edge command"),
    }
}

#[test]
fn malformed_commands_are_unknown() {
    assert!(matches!(parse_command(""), Command::Unknown));
    assert!(matches!(parse_command("create graph"), Command::Unknown));
    assert!(matches!(parse_command("list graphs now"), Command::Unknown));
    assert!(matches!(parse_command("add node g x Person"), Command::Unknown));
    assert!(matches!(parse_command("add node g 1"), Command::Unknown));
    assert!(matches!(parse_command("add edge g 1 2 x knows"), Command::Unknown));
    assert!(matches!(parse_command("print graph nodes g"), Command::Unknown));
    assert!(matches!(parse_command("drop graph g"), Command::Unknown));
}
