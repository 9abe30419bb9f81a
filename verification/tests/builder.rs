use trx_engine::builder::ProjectBuilder;

#[test]
fn builder_adds_diagrams_nodes_and_edges() {
    let mut b = ProjectBuilder::new();
    let d = b.add_diagram("Main");
    assert_eq!(d, 0);
    assert_eq!(b.add_node(d, "A"), "A");
    assert_eq!(b.add_node(d, "A"), "A");
    b.add_edge(d, "A", "B", Some("calls"));
    b.add_edge(d, "B", "A", None);
    assert_eq!(b.add_node(7, "ignored"), "ignored");
    let p = b.build();
    assert_eq!(p.diagrams.len(), 1);
    let diag = &p.diagrams[0];
    assert_eq!(diag.name, "Main");
    assert_eq!(diag.root.id, "root");
    let ids: Vec<&str> = diag.root.nodes.iter().map(|n| n.id.as_str()).collect();
    assert_eq!(ids, vec!["A", "B"]);
    assert_eq!(diag.root.nodes[1].label, Some("B".to_string()));
    assert_eq!(diag.connections.len(), 2);
    assert_eq!(diag.connections[0].from, "A");
    assert_eq!(diag.connections[0].to, "B");
    assert_eq!(diag.connections[0].arrow, "->");
    assert_eq!(diag.connections[0].label, Some("calls".to_string()));
    assert_eq!(diag.connections[1].label, None);
}

#[test]
fn edge_endpoints_law_example() {
    let mut b = ProjectBuilder::default();
    let d = b.add_diagram("G");
    b.add_edge(d, "X", "X", None);
    let p = b.build();
    assert_eq!(p.diagrams[0].root.nodes.len(), 1);
    assert_eq!(p.diagrams[0].root.nodes[0].id, "X");
}

#[test]
fn edge_on_missing_diagram_changes_nothing() {
    let mut b = ProjectBuilder::new();
    b.add_edge(0, "A", "B", None);
    let p = b.build();
    assert!(p.diagrams.is_empty());
}
