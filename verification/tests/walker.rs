use rule_graph::ast::{Expr, Matcher};
use rule_graph::parser::parse_query;
use rule_graph::walker::{collect_selector_names, get_metic_dependencies};

fn matcher(name: &str, value: &str) -> Matcher {
    Matcher { name: name.to_string(), value: value.to_string() }
}

fn selector(matchers: Vec<Matcher>) -> Expr {
    Expr::Vector { matchers }
}

fn metric(name: &str) -> Expr {
    selector(vec![matcher("__name__", name)])
}

fn operator(left: Expr, right: Expr) -> Expr {
    Expr::Operator { left: Box::new(left), right: Box::new(right) }
}

fn negation(child: Expr) -> Expr {
    Expr::Negation { child: Box::new(child) }
}

fn function(args: Vec<Expr>) -> Expr {
    Expr::Function { args }
}

#[test]
fn test_get_metic_dependencies() {
    let ast = parse_query(
        b"
        sum(1 - something_used{env=\"production\"} / something_total) by (instance)
        and ignoring (instance)
        sum(rate(some_queries{instance=~\"localhost\\\\d+\"} [5m])) > 100
    ",
    )
    .unwrap(); // or show user that their query is invalid

    let metrics = get_metic_dependencies(ast);
    assert_eq!(
        metrics,
        vec!["some_queries", "something_total", "something_used"]
    );
}

#[test]
fn scalar_reads_nothing() {
    assert_eq!(get_metic_dependencies(Expr::Scalar), Vec::<String>::new());
}

#[test]
fn string_reads_nothing() {
    assert_eq!(get_metic_dependencies(Expr::String), Vec::<String>::new());
}

#[test]
fn tree_of_literals_reads_nothing() {
    let tree = operator(
        function(vec![Expr::Scalar, negation(Expr::String), function(vec![])]),
        negation(operator(Expr::Scalar, Expr::String)),
    );
    assert_eq!(get_metic_dependencies(tree), Vec::<String>::new());
}

#[test]
fn selector_yields_its_metric_once() {
    let tree = selector(vec![matcher("__name__", "up"), matcher("job", "node")]);
    assert_eq!(get_metic_dependencies(tree), vec!["up"]);
}

#[test]
fn selector_yields_each_name_matcher() {
    let tree = selector(vec![
        matcher("__name__", "first"),
        matcher("env", "production"),
        matcher("__name__", "second"),
        matcher("__name__", "first"),
    ]);
    assert_eq!(get_metic_dependencies(tree), vec!["first", "second", "first"]);
}

#[test]
fn selector_without_name_yields_nothing() {
    let tree = selector(vec![matcher("job", "node"), matcher("instance", "localhost")]);
    assert_eq!(get_metic_dependencies(tree), Vec::<String>::new());
}

#[test]
fn selector_without_matchers_yields_nothing() {
    assert_eq!(get_metic_dependencies(selector(vec![])), Vec::<String>::new());
}

#[test]
fn label_value_named_like_the_label_is_no_metric() {
    let tree = selector(vec![matcher("job", "__name__"), matcher("__name", "x")]);
    assert_eq!(get_metic_dependencies(tree), Vec::<String>::new());
}

#[test]
fn operator_reads_right_operand_first() {
    let tree = operator(metric("left"), metric("right"));
    assert_eq!(get_metic_dependencies(tree), vec!["right", "left"]);
}

#[test]
fn function_reads_last_argument_first() {
    let tree = function(vec![metric("a"), metric("b"), metric("c")]);
    assert_eq!(get_metic_dependencies(tree), vec!["c", "b", "a"]);
}

#[test]
fn negation_reads_its_operand() {
    assert_eq!(get_metic_dependencies(negation(metric("up"))), vec!["up"]);
}

#[test]
fn nested_tree_is_walked_completely() {
    let tree = operator(
        function(vec![
            negation(metric("a")),
            operator(metric("b"), function(vec![metric("c"), Expr::Scalar])),
        ]),
        negation(negation(operator(Expr::String, metric("d")))),
    );
    assert_eq!(get_metic_dependencies(tree), vec!["d", "c", "b", "a"]);
}

#[test]
fn repeated_metric_is_kept() {
    let tree = operator(metric("metric_a"), metric("metric_a"));
    assert_eq!(get_metic_dependencies(tree), vec!["metric_a", "metric_a"]);
}

#[test]
fn deep_chain_is_walked_without_recursion() {
    let mut tree = metric("leaf");
    for _ in 0..200_000 {
        tree = negation(tree);
    }
    let metrics = get_metic_dependencies(tree);
    assert_eq!(metrics, vec!["leaf"]);
}

#[test]
fn long_operator_chain_is_walked() {
    let mut tree = metric("m0");
    for i in 1..1000 {
        tree = operator(tree, metric(&format!("m{}", i)));
    }
    let metrics = get_metic_dependencies(tree);
    assert_eq!(metrics.len(), 1000);
    assert_eq!(metrics[0], "m999");
    assert_eq!(metrics[999], "m0");
}

#[test]
fn collect_selector_names_appends() {
    let mut metrics = vec!["before".to_string()];
    let matchers = vec![matcher("__name__", "up"), matcher("job", "x"), matcher("__name__", "down")];
    collect_selector_names(&matchers, &mut metrics);
    assert_eq!(metrics, vec!["before", "up", "down"]);
}
