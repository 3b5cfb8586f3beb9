use rule_graph::aggregate::{aggregate, record_rule, AggregateError, Dependencies};
use rule_graph::ast::{Expr, Matcher};
use rule_graph::parser::QueryError;
use rule_graph::render::dot_digraph;
use rule_graph::rules::{Data, Group, Rule, Rules};

fn name(text: &str) -> String {
    text.to_string()
}

fn rule(rule_name: &str, query: &str, evaluation_time: f64) -> Rule {
    Rule {
        name: name(rule_name),
        query: name(query),
        health: name("ok"),
        evaluation_time: evaluation_time.to_bits(),
        last_evaluation: name("2022-07-01T00:00:00Z"),
        type_field: name("recording"),
    }
}

fn group(group_name: &str, rules: Vec<Rule>) -> Group {
    Group {
        name: name(group_name),
        file: name("rules.yml"),
        rules,
        interval: 60,
        limit: 0,
        evaluation_time: 0.5f64.to_bits(),
        last_evaluation: name("2022-07-01T00:00:00Z"),
    }
}

fn snapshot(groups: Vec<Group>) -> Rules {
    Rules { status: name("success"), data: Data { groups } }
}

fn metric(metric_name: &str) -> Expr {
    Expr::Vector { matchers: vec![Matcher { name: name("__name__"), value: name(metric_name) }] }
}

#[test]
fn one_rule_end_to_end() {
    let rules = snapshot(vec![group(
        "g",
        vec![rule(
            "r1",
            "sum(1 - used{env=\"production\"} / total) by (instance) and ignoring (instance) sum(rate(queries{instance=~\"localhost\\\\d+\"} [5m])) > 100",
            0.001,
        )],
    )]);
    let state = aggregate(&rules).unwrap();
    assert_eq!(state.graph.metrics(), &vec![name("queries"), name("total"), name("used")]);
    assert_eq!(state.graph.dependents(&name("queries")), Some(&vec![name("r1")]));
    assert_eq!(state.graph.dependents(&name("total")), Some(&vec![name("r1")]));
    assert_eq!(state.graph.dependents(&name("used")), Some(&vec![name("r1")]));
    assert_eq!(
        dot_digraph(&state.graph),
        "digraph {\n  rankdir=\"LR\";\n  \"queries\" -> \"r1\";\n  \"total\" -> \"r1\";\n  \"used\" -> \"r1\";\n}\n"
    );
    assert_eq!(state.evaluation_times.get(&name("r1")), Some(0.001f64.to_bits()));
}

#[test]
fn metric_read_twice_gives_two_edges() {
    let rules = snapshot(vec![group("g", vec![rule("rule", "metric_a + metric_a", 0.0)])]);
    let state = aggregate(&rules).unwrap();
    assert_eq!(state.graph.dependents(&name("metric_a")), Some(&vec![name("rule"), name("rule")]));
    assert_eq!(
        dot_digraph(&state.graph),
        "digraph {\n  rankdir=\"LR\";\n  \"metric_a\" -> \"rule\";\n  \"metric_a\" -> \"rule\";\n}\n"
    );
}

#[test]
fn same_rules_give_the_same_text() {
    let make = || {
        snapshot(vec![
            group(
                "first",
                vec![
                    rule("job:up:sum", "sum(up) by (job)", 0.1),
                    rule("job:up:ratio", "job:up:sum / count(up) by (job)", 0.2),
                ],
            ),
            group("second", vec![rule("alerts", "ALERTS{alertstate=\"firing\"} and up", 0.3)]),
        ])
    };
    let first = dot_digraph(&aggregate(&make()).unwrap().graph);
    let second = dot_digraph(&aggregate(&make()).unwrap().graph);
    assert_eq!(first, second);
    assert_eq!(
        first,
        "digraph {\n  rankdir=\"LR\";\n  \"up\" -> \"job:up:sum\";\n  \"up\" -> \"job:up:ratio\";\n  \"up\" -> \"alerts\";\n  \"job:up:sum\" -> \"job:up:ratio\";\n  \"ALERTS\" -> \"alerts\";\n}\n"
    );
}

#[test]
fn no_rules_give_an_empty_graph() {
    let state = aggregate(&Rules::default()).unwrap();
    assert!(state.graph.metrics().is_empty());
    assert_eq!(state.evaluation_times.len(), 0);
    assert_eq!(dot_digraph(&state.graph), "digraph {\n  rankdir=\"LR\";\n}\n");
}

#[test]
fn groups_without_rules_give_an_empty_graph() {
    let rules = snapshot(vec![group("a", vec![]), group("b", vec![])]);
    let state = aggregate(&rules).unwrap();
    assert_eq!(dot_digraph(&state.graph), "digraph {\n  rankdir=\"LR\";\n}\n");
}

#[test]
fn rule_without_metric_gives_no_edge_but_a_time() {
    let rules = snapshot(vec![group("g", vec![rule("answer", "6 * 7", 2.5)])]);
    let state = aggregate(&rules).unwrap();
    assert!(state.graph.metrics().is_empty());
    assert_eq!(state.evaluation_times.get(&name("answer")), Some(2.5f64.to_bits()));
    assert_eq!(state.evaluation_times.len(), 1);
}

#[test]
fn first_bad_query_ends_the_run() {
    let rules = snapshot(vec![
        group("g1", vec![rule("good", "up", 0.0), rule("bad", "sum(", 0.0)]),
        group("g2", vec![rule("worse", "foo[99999999999999999999999s]", 0.0)]),
    ]);
    assert_eq!(
        aggregate(&rules).err(),
        Some(AggregateError { rule: name("bad"), query: name("sum("), cause: QueryError::Syntax })
    );
}

#[test]
fn duration_out_of_range_ends_the_run() {
    let rules = snapshot(vec![
        group("g1", vec![]),
        group("g2", vec![rule("worse", "foo[99999999999999999999999s]", 0.0)]),
        group("g3", vec![rule("bad", "sum(", 0.0)]),
    ]);
    assert_eq!(
        aggregate(&rules).err(),
        Some(AggregateError {
            rule: name("worse"),
            query: name("foo[99999999999999999999999s]"),
            cause: QueryError::DurationOutOfRange,
        })
    );
}

#[test]
fn repeated_rule_name_keeps_both_edges_and_the_later_time() {
    let rules = snapshot(vec![
        group("g1", vec![rule("r", "a", 1.0)]),
        group("g2", vec![rule("r", "b + a", 2.0)]),
    ]);
    let state = aggregate(&rules).unwrap();
    assert_eq!(state.graph.metrics(), &vec![name("a"), name("b")]);
    assert_eq!(state.graph.dependents(&name("a")), Some(&vec![name("r"), name("r")]));
    assert_eq!(state.graph.dependents(&name("b")), Some(&vec![name("r")]));
    assert_eq!(state.evaluation_times.get(&name("r")), Some(2.0f64.to_bits()));
    assert_eq!(state.evaluation_times.len(), 1);
}

#[test]
fn rules_are_recorded_in_source_order() {
    let rules = snapshot(vec![
        group("g1", vec![rule("r1", "z", 0.0), rule("r2", "y", 0.0)]),
        group("g2", vec![rule("r3", "z + x", 0.0)]),
    ]);
    let state = aggregate(&rules).unwrap();
    assert_eq!(state.graph.metrics(), &vec![name("z"), name("y"), name("x")]);
    assert_eq!(state.graph.dependents(&name("z")), Some(&vec![name("r1"), name("r3")]));
}

#[test]
fn record_rule_adds_time_and_edges() {
    let mut state = Dependencies::new();
    let tree = Expr::Operator { left: Box::new(metric("a")), right: Box::new(metric("b")) };
    record_rule(&mut state, &name("r"), 7, tree);
    assert_eq!(state.graph.metrics(), &vec![name("b"), name("a")]);
    assert_eq!(state.graph.dependents(&name("a")), Some(&vec![name("r")]));
    assert_eq!(state.graph.dependents(&name("b")), Some(&vec![name("r")]));
    assert_eq!(state.evaluation_times.get(&name("r")), Some(7));
    record_rule(&mut state, &name("s"), 8, Expr::Scalar);
    assert_eq!(state.graph.metrics().len(), 2);
    assert_eq!(state.evaluation_times.get(&name("s")), Some(8));
}
