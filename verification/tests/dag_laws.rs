use dag_demo::{Dag, Node};

fn build(ids: &[&str], edges: &[(&str, &str)]) -> Dag {
    let mut dag = Dag::new();
    for id in ids {
        dag.add_node(Node::new(id, &format!("Node {}", id))).unwrap();
    }
    for (a, b) in edges {
        dag.add_edge(a, b).unwrap();
    }
    dag
}

fn position(sorted: &[Node], id: &str) -> usize {
    sorted.iter().position(|n| n.id == id).unwrap()
}

#[test]
fn duplicate_node_message_names_the_id() {
    let mut dag = Dag::new();
    dag.add_node(Node::new("A", "first")).unwrap();
    let err = dag.add_node(Node::new("A", "second")).unwrap_err();
    assert_eq!(err, "Node with id 'A' already exists");
    // the first node stays
    assert_eq!(dag.get_nodes()[0].data, "first");
}

#[test]
fn missing_endpoints_are_reported_source_first() {
    let mut dag = build(&["A"], &[]);
    assert_eq!(dag.add_edge("X", "Y").unwrap_err(), "Source node 'X' does not exist");
    assert_eq!(dag.add_edge("A", "Y").unwrap_err(), "Target node 'Y' does not exist");
    assert_eq!(dag.edge_count(), 0);
}

#[test]
fn self_loop_is_a_cycle() {
    let mut dag = build(&["A"], &[]);
    assert_eq!(
        dag.add_edge("A", "A").unwrap_err(),
        "Adding edge from 'A' to 'A' would create a cycle"
    );
    assert_eq!(dag.edge_count(), 0);
}

#[test]
fn long_cycle_is_refused_and_graph_unchanged() {
    let mut dag = build(&["A", "B", "C", "D"], &[("A", "B"), ("B", "C"), ("C", "D")]);
    assert_eq!(
        dag.add_edge("D", "A").unwrap_err(),
        "Adding edge from 'D' to 'A' would create a cycle"
    );
    assert_eq!(dag.edge_count(), 3);
    // an edge that only shortcuts the path is fine
    assert!(dag.add_edge("A", "D").is_ok());
    assert_eq!(dag.edge_count(), 4);
}

#[test]
fn repeated_edge_is_counted_once() {
    let mut dag = build(&["A", "B"], &[("A", "B")]);
    assert!(dag.add_edge("A", "B").is_ok());
    assert_eq!(dag.edge_count(), 1);
    assert_eq!(dag.get_children("A").unwrap().len(), 1);
}

#[test]
fn children_of_missing_node_is_none() {
    let dag = build(&["A"], &[]);
    assert!(dag.get_children("Z").is_none());
}

#[test]
fn children_keep_the_order_of_their_edges() {
    let dag = build(&["A", "B", "C"], &[("A", "C"), ("A", "B")]);
    let ids: Vec<&str> = dag.get_children("A").unwrap().iter().map(|n| n.id.as_str()).collect();
    assert_eq!(ids, vec!["C", "B"]);
}

#[test]
fn nodes_come_in_insertion_order() {
    let dag = build(&["C", "A", "B"], &[]);
    let ids: Vec<&str> = dag.get_nodes().iter().map(|n| n.id.as_str()).collect();
    assert_eq!(ids, vec!["C", "A", "B"]);
}

#[test]
fn topological_order_respects_every_edge() {
    let edges = [
        ("install", "compile"),
        ("compile", "test"),
        ("compile", "package"),
        ("test", "deploy"),
        ("package", "deploy"),
    ];
    let dag = build(&["deploy", "package", "test", "compile", "install"], &edges);
    let sorted = dag.topological_sort().unwrap();
    assert_eq!(sorted.len(), 5);
    for (a, b) in edges.iter() {
        assert!(position(&sorted, a) < position(&sorted, b));
    }
    // every node once, with its data
    for id in ["deploy", "package", "test", "compile", "install"] {
        let n = &sorted[position(&sorted, id)];
        assert_eq!(n.data, format!("Node {}", id));
        assert_eq!(sorted.iter().filter(|m| m.id == id).count(), 1);
    }
}

#[test]
fn default_graph_is_empty() {
    let dag = Dag::default();
    assert_eq!(dag.node_count(), 0);
    assert_eq!(dag.edge_count(), 0);
    assert!(dag.topological_sort().unwrap().is_empty());
}

#[test]
fn node_new_keeps_its_texts() {
    let n = Node::new("id-1", "some data");
    assert_eq!(n.id, "id-1");
    assert_eq!(n.data, "some data");
}

#[test]
fn children_are_listed_once_each() {
    let mut dag = build(&["A", "B", "C"], &[("A", "B"), ("A", "C")]);
    dag.add_edge("A", "B").unwrap();
    dag.add_edge("A", "C").unwrap();
    let children = dag.get_children("A").unwrap();
    let mut ids: Vec<String> = children.iter().map(|n| n.id.clone()).collect();
    assert_eq!(ids.len(), 2);
    ids.sort();
    ids.dedup();
    assert_eq!(ids, vec!["B".to_string(), "C".to_string()]);
    assert!(dag.get_children("C").unwrap().is_empty());
}
