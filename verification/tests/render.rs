use rule_graph::graph::DependencyGraph;
use rule_graph::render::{dot_digraph, push_edge_line, push_escaped};

fn name(text: &str) -> String {
    text.to_string()
}

#[test]
fn empty_graph_is_header_and_footer() {
    let graph = DependencyGraph::new();
    assert_eq!(dot_digraph(&graph), "digraph {\n  rankdir=\"LR\";\n}\n");
}

#[test]
fn one_edge_is_one_line() {
    let mut graph = DependencyGraph::new();
    graph.insert(name("up"), name("r1"));
    assert_eq!(dot_digraph(&graph), "digraph {\n  rankdir=\"LR\";\n  \"up\" -> \"r1\";\n}\n");
}

#[test]
fn edges_are_written_metric_by_metric() {
    let mut graph = DependencyGraph::new();
    graph.insert(name("b"), name("r1"));
    graph.insert(name("a"), name("r1"));
    graph.insert(name("b"), name("r2"));
    graph.insert(name("c"), name("r2"));
    graph.insert(name("a"), name("r3"));
    assert_eq!(
        dot_digraph(&graph),
        "digraph {\n  rankdir=\"LR\";\n  \"b\" -> \"r1\";\n  \"b\" -> \"r2\";\n  \"a\" -> \"r1\";\n  \"a\" -> \"r3\";\n  \"c\" -> \"r2\";\n}\n"
    );
}

#[test]
fn duplicate_edge_is_written_twice() {
    let mut graph = DependencyGraph::new();
    graph.insert(name("metric_a"), name("rule"));
    graph.insert(name("metric_a"), name("rule"));
    assert_eq!(
        dot_digraph(&graph),
        "digraph {\n  rankdir=\"LR\";\n  \"metric_a\" -> \"rule\";\n  \"metric_a\" -> \"rule\";\n}\n"
    );
}

#[test]
fn quotes_and_backslashes_are_escaped() {
    let mut graph = DependencyGraph::new();
    graph.insert(name("a\"b\\c"), name("r\"1\\"));
    assert_eq!(
        dot_digraph(&graph),
        "digraph {\n  rankdir=\"LR\";\n  \"a\\\"b\\\\c\" -> \"r\\\"1\\\\\";\n}\n"
    );
}

#[test]
fn other_characters_pass_unchanged() {
    let mut graph = DependencyGraph::new();
    graph.insert(name("node:cpu_\u{00b5}s {x}\n'"), name("r\u{00e9}gle -> 1;"));
    assert_eq!(
        dot_digraph(&graph),
        "digraph {\n  rankdir=\"LR\";\n  \"node:cpu_\u{00b5}s {x}\n'\" -> \"r\u{00e9}gle -> 1;\";\n}\n"
    );
}

#[test]
fn same_graph_is_written_the_same() {
    let mut first = DependencyGraph::new();
    let mut second = DependencyGraph::new();
    for i in 0..50 {
        first.insert(format!("metric{}", i % 7), format!("rule{}", i));
        second.insert(format!("metric{}", i % 7), format!("rule{}", i));
    }
    assert_eq!(dot_digraph(&first), dot_digraph(&second));
    assert_eq!(dot_digraph(&first), dot_digraph(&first));
}

#[test]
fn push_escaped_appends() {
    let mut text = name("x=");
    push_escaped(&mut text, &name("plain"));
    assert_eq!(text, "x=plain");
    push_escaped(&mut text, &name(""));
    assert_eq!(text, "x=plain");
    push_escaped(&mut text, &name("\"\\\""));
    assert_eq!(text, "x=plain\\\"\\\\\\\"");
}

#[test]
fn push_edge_line_appends() {
    let mut text = name("before\n");
    push_edge_line(&mut text, &name("up"), &name("job:up:sum"));
    assert_eq!(text, "before\n  \"up\" -> \"job:up:sum\";\n");
}
