use rule_graph::graph::DependencyGraph;

fn name(text: &str) -> String {
    text.to_string()
}

#[test]
fn new_graph_has_no_metric() {
    let graph = DependencyGraph::new();
    assert!(graph.metrics().is_empty());
    assert_eq!(graph.dependents(&name("up")), None);
}

#[test]
fn insert_adds_metric_and_rule() {
    let mut graph = DependencyGraph::new();
    graph.insert(name("up"), name("r1"));
    assert_eq!(graph.metrics(), &vec![name("up")]);
    assert_eq!(graph.dependents(&name("up")), Some(&vec![name("r1")]));
    assert_eq!(graph.dependents(&name("r1")), None);
}

#[test]
fn insert_keeps_duplicates_and_order() {
    let mut graph = DependencyGraph::new();
    graph.insert(name("a"), name("r1"));
    graph.insert(name("b"), name("r1"));
    graph.insert(name("a"), name("r2"));
    graph.insert(name("a"), name("r1"));
    graph.insert(name("c"), name("r3"));
    graph.insert(name("b"), name("r0"));
    assert_eq!(graph.metrics(), &vec![name("a"), name("b"), name("c")]);
    assert_eq!(graph.dependents(&name("a")), Some(&vec![name("r1"), name("r2"), name("r1")]));
    assert_eq!(graph.dependents(&name("b")), Some(&vec![name("r1"), name("r0")]));
    assert_eq!(graph.dependents(&name("c")), Some(&vec![name("r3")]));
}

#[test]
fn metrics_are_listed_once_each() {
    let mut graph = DependencyGraph::new();
    for _ in 0..5 {
        graph.insert(name("up"), name("r"));
    }
    assert_eq!(graph.metrics().len(), 1);
    assert_eq!(graph.dependents(&name("up")).map(|rules| rules.len()), Some(5));
}
