use flcommon::topology::{resolve_topology, NodeEntry};

fn entry(id: Option<&str>, class: Option<&str>) -> NodeEntry {
    NodeEntry { id: id.map(|s| s.to_string()), class: class.map(|s| s.to_string()) }
}

fn names(xs: &[&str]) -> Option<Vec<String>> {
    Some(xs.iter().map(|s| s.to_string()).collect())
}

#[test]
fn nodes_resolve_to_their_class_positions() {
    let classes = names(&["edge", "cloud", "fog"]);
    let nodes = Some(vec![entry(Some("n1"), Some("fog")), entry(Some("n2"), Some("edge")), entry(Some("n3"), Some("fog"))]);
    let got = resolve_topology(&classes, &nodes).unwrap();
    assert_eq!(got, vec![("n1".to_string(), 2), ("n2".to_string(), 0), ("n3".to_string(), 2)]);
    assert_eq!(resolve_topology(&classes, &Some(vec![])), Ok(vec![]));
}

#[test]
fn missing_class_table_is_reported_first() {
    assert_eq!(resolve_topology(&None, &None), Err("topology.classes missing".to_string()));
    assert_eq!(
        resolve_topology(&None, &Some(vec![entry(None, None)])),
        Err("topology.classes missing".to_string())
    );
}

#[test]
fn missing_node_list_is_reported() {
    assert_eq!(resolve_topology(&names(&["edge"]), &None), Err("topology.nodes missing".to_string()));
}

#[test]
fn node_faults_are_reported_for_the_first_faulty_node() {
    let classes = names(&["edge"]);
    let check = |nodes: Vec<NodeEntry>| resolve_topology(&classes, &Some(nodes));
    assert_eq!(check(vec![entry(None, Some("edge"))]), Err("node.id missing".to_string()));
    assert_eq!(check(vec![entry(None, None)]), Err("node.id missing".to_string()));
    assert_eq!(check(vec![entry(Some("n1"), None)]), Err("node.class missing".to_string()));
    assert_eq!(check(vec![entry(Some("n1"), Some("gpu"))]), Err("unknown class gpu".to_string()));
    assert_eq!(
        check(vec![entry(Some("n1"), Some("edge")), entry(Some("n2"), Some("cloud")), entry(None, None)]),
        Err("unknown class cloud".to_string())
    );
    // class names are matched exactly
    assert_eq!(check(vec![entry(Some("n1"), Some("Edge"))]), Err("unknown class Edge".to_string()));
}
