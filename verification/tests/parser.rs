use rule_graph::ast::{Expr, Matcher};
use rule_graph::parser::{parse_query, QueryError};

fn matcher(name: &str, value: &str) -> Matcher {
    Matcher { name: name.to_string(), value: value.to_string() }
}

fn metric(name: &str) -> Expr {
    Expr::Vector { matchers: vec![matcher("__name__", name)] }
}

#[test]
fn parses_bare_metric() {
    assert_eq!(parse_query(b"up"), Ok(metric("up")));
}

#[test]
fn parses_selector_with_matchers() {
    assert_eq!(
        parse_query(b"foo{bar='baz', quux!~\"x.*\"}"),
        Ok(Expr::Vector {
            matchers: vec![matcher("__name__", "foo"), matcher("bar", "baz"), matcher("quux", "x.*")],
        })
    );
}

#[test]
fn parses_selector_without_metric_name() {
    assert_eq!(
        parse_query(b"{job=\"node\"}"),
        Ok(Expr::Vector { matchers: vec![matcher("job", "node")] })
    );
}

#[test]
fn parses_name_matcher_written_as_label() {
    assert_eq!(
        parse_query(b"{__name__=~\"node_.+\"}"),
        Ok(Expr::Vector { matchers: vec![matcher("__name__", "node_.+")] })
    );
}

#[test]
fn parses_scalar() {
    assert_eq!(parse_query(b"100"), Ok(Expr::Scalar));
}

#[test]
fn parses_operator_with_both_operands() {
    assert_eq!(
        parse_query(b"a + b"),
        Ok(Expr::Operator { left: Box::new(metric("a")), right: Box::new(metric("b")) })
    );
}

#[test]
fn parses_negation() {
    assert_eq!(parse_query(b"-up"), Ok(Expr::Negation { child: Box::new(metric("up")) }));
}

#[test]
fn parses_function_with_string_argument() {
    assert_eq!(
        parse_query(b"label_replace(up, \"dst\", 1)"),
        Ok(Expr::Function { args: vec![metric("up"), Expr::String, Expr::Scalar] })
    );
}

#[test]
fn parses_range_and_offset() {
    assert_eq!(
        parse_query(b"rate(requests[5m] offset 1h)"),
        Ok(Expr::Function { args: vec![metric("requests")] })
    );
}

#[test]
fn rejects_empty_text() {
    assert_eq!(parse_query(b""), Err(QueryError::Syntax));
}

#[test]
fn rejects_unclosed_call() {
    assert_eq!(parse_query(b"sum("), Err(QueryError::Syntax));
}

#[test]
fn rejects_trailing_text() {
    assert_eq!(parse_query(b"asdf hjkl"), Err(QueryError::Syntax));
}

#[test]
fn refuses_range_beyond_usize() {
    assert_eq!(
        parse_query(b"foo[99999999999999999999999999s]"),
        Err(QueryError::DurationOutOfRange)
    );
}

#[test]
fn refuses_offset_beyond_usize() {
    assert_eq!(
        parse_query(b"foo offset 99999999999999999999999999s"),
        Err(QueryError::DurationOutOfRange)
    );
}

#[test]
fn refuses_range_whose_seconds_overflow() {
    let query = format!("foo[{}w]", usize::MAX / 604800 + 1);
    assert_eq!(parse_query(query.as_bytes()), Err(QueryError::DurationOutOfRange));
}

#[test]
fn accepts_largest_range() {
    let query = format!("foo[{}w]", usize::MAX / 604800);
    assert_eq!(parse_query(query.as_bytes()), Ok(metric("foo")));
}

#[test]
fn accepts_digits_in_bracket_of_label_value() {
    assert_eq!(
        parse_query(b"foo{bar=~\"[0123456789]+\"}"),
        Ok(Expr::Vector {
            matchers: vec![matcher("__name__", "foo"), matcher("bar", "[0123456789]+")],
        })
    );
}

#[test]
fn long_number_outside_duration_is_a_scalar() {
    assert_eq!(parse_query(b"123456789012345678901234567890"), Ok(Expr::Scalar));
}
