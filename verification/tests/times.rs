use rule_graph::times::EvaluationTimes;

fn name(text: &str) -> String {
    text.to_string()
}

#[test]
fn new_table_is_empty() {
    let times = EvaluationTimes::new();
    assert_eq!(times.len(), 0);
    assert_eq!(times.get(&name("r1")), None);
}

#[test]
fn insert_records_time() {
    let mut times = EvaluationTimes::new();
    times.insert(name("r1"), 0.25f64.to_bits());
    assert_eq!(times.len(), 1);
    assert_eq!(times.get(&name("r1")), Some(0.25f64.to_bits()));
    assert_eq!(times.get(&name("r1")).map(f64::from_bits), Some(0.25));
    assert_eq!(times.get(&name("r2")), None);
}

#[test]
fn later_time_replaces_earlier() {
    let mut times = EvaluationTimes::new();
    times.insert(name("r1"), 1);
    times.insert(name("r2"), 2);
    times.insert(name("r1"), 3);
    assert_eq!(times.len(), 2);
    assert_eq!(times.get(&name("r1")), Some(3));
    assert_eq!(times.get(&name("r2")), Some(2));
}
