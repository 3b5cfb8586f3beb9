//! The aggregation of a snapshot of rules into the dependency graph and the
//! table of evaluation times.

use crate::ast::{
    count_of, is_name, lemma_metric_names_count, metric_names, names_view, tree_reads, Expr,
    ExprView,
};
use crate::graph::{edge_count, lemma_insert_edge_count, DependencyGraph, GraphView};
use crate::parser::{parse_query, query_tree, QueryError};
use crate::render::{dot_text, footer, header, lemma_empty_graph_text};
use crate::rules::{group_rules, snapshot_rules, Group, Rule, Rules};
use crate::times::EvaluationTimes;
use crate::walker::get_metic_dependencies;
use vstd::prelude::*;
use vstd::seq_lib::lemma_flatten_concat;
use vstd::string::*;
use vstd::utf8::encode_utf8;

verus! {

/// What aggregation builds: the graph and the evaluation times.
pub struct Dependencies {
    pub graph: DependencyGraph,
    pub evaluation_times: EvaluationTimes,
}

/// The mathematical value of [`Dependencies`].
pub struct DependenciesView {
    pub graph: GraphView,
    pub evaluation_times: Map<Seq<char>, u64>,
}

impl View for Dependencies {
    type V = DependenciesView;

    open spec fn view(&self) -> DependenciesView {
        DependenciesView { graph: self.graph@, evaluation_times: self.evaluation_times@ }
    }
}

/// The rule whose query has no tree, and why.
#[derive(Debug, Clone, PartialEq)]
pub struct AggregateError {
    pub rule: String,
    pub query: String,
    pub cause: QueryError,
}

/// The mathematical value of an [`AggregateError`].
pub struct FailureView {
    pub rule: Seq<char>,
    pub query: Seq<char>,
    pub cause: QueryError,
}

impl View for AggregateError {
    type V = FailureView;

    open spec fn view(&self) -> FailureView {
        FailureView { rule: self.rule@, query: self.query@, cause: self.cause }
    }
}

/// The graph with an edge to `rule` from each of `metrics`, in their order.
pub open spec fn add_edges(graph: GraphView, metrics: Seq<Seq<char>>, rule: Seq<char>) -> GraphView
    decreases metrics.len(),
{
    if metrics.len() == 0 {
        graph
    } else {
        add_edges(graph, metrics.drop_last(), rule).insert(metrics.last(), rule)
    }
}

/// The state without rules.
pub open spec fn nothing() -> DependenciesView {
    DependenciesView { graph: GraphView::empty(), evaluation_times: Map::empty() }
}

/// The state with one more rule: its evaluation time under its name, in
/// place of the time that the name had, and an edge to it from each metric
/// that its tree reads.
pub open spec fn record(
    state: DependenciesView,
    rule: Seq<char>,
    evaluation_time: u64,
    tree: ExprView,
) -> DependenciesView {
    DependenciesView {
        graph: add_edges(state.graph, metric_names(tree), rule),
        evaluation_times: state.evaluation_times.insert(rule, evaluation_time),
    }
}

/// What aggregation makes of a sequence of rules: the state with every
/// rule recorded in order, or the first rule whose query has no tree.
pub open spec fn aggregated(rules: Seq<Rule>) -> Result<DependenciesView, FailureView>
    decreases rules.len(),
{
    if rules.len() == 0 {
        Ok(nothing())
    } else {
        let rule = rules.last();
        match aggregated(rules.drop_last()) {
            Ok(state) => match query_tree(encode_utf8(rule.query@)) {
                Ok(tree) => Ok(record(state, rule.name@, rule.evaluation_time, tree)),
                Err(cause) => Err(FailureView { rule: rule.name@, query: rule.query@, cause }),
            },
            Err(failure) => Err(failure),
        }
    }
}

/// Adding the edges of a rule adds, for each metric, as many edges to the
/// rule as the metric occurs among the names, and no edge to another rule:
/// a metric that a query reads twice gets two edges.
pub proof fn lemma_add_edges_count(
    graph: GraphView,
    metrics: Seq<Seq<char>>,
    rule: Seq<char>,
    metric: Seq<char>,
    other_rule: Seq<char>,
)
    ensures
        edge_count(add_edges(graph, metrics, rule), metric, other_rule) == edge_count(
            graph,
            metric,
            other_rule,
        ) + if other_rule == rule {
            count_of(metrics, metric)
        } else {
            0nat
        },
    decreases metrics.len(),
{
    if metrics.len() == 0 {
        assert(metrics.filter(is_name(metric)) =~= Seq::<Seq<char>>::empty());
    } else {
        let front = metrics.drop_last();
        lemma_add_edges_count(graph, front, rule, metric, other_rule);
        lemma_insert_edge_count(
            add_edges(graph, front, rule),
            metrics.last(),
            rule,
            metric,
            other_rule,
        );
        assert(metrics =~= front.push(metrics.last()));
        front.lemma_filter_push(metrics.last(), is_name(metric));
    }
}

/// Recording a rule adds, for each metric, as many edges to the rule as
/// selectors of its tree name the metric.
pub proof fn lemma_record_edge_count(
    state: DependenciesView,
    rule: Seq<char>,
    evaluation_time: u64,
    tree: ExprView,
    metric: Seq<char>,
)
    ensures
        edge_count(record(state, rule, evaluation_time, tree).graph, metric, rule) == edge_count(
            state.graph,
            metric,
            rule,
        ) + tree_reads(tree, metric),
{
    lemma_add_edges_count(state.graph, metric_names(tree), rule, metric, rule);
    lemma_metric_names_count(tree, metric);
}

/// Aggregation reads of each rule its name, its query and its evaluation
/// time, and nothing else: two sequences of rules that agree in these,
/// rule by rule, give the same result.
pub proof fn lemma_aggregated_deterministic(first: Seq<Rule>, second: Seq<Rule>)
    requires
        first.len() == second.len(),
        forall|i: int|
            0 <= i < first.len() ==> {
                &&& (#[trigger] first[i]).name@ == second[i].name@
                &&& first[i].query@ == second[i].query@
                &&& first[i].evaluation_time == second[i].evaluation_time
            },
    ensures
        aggregated(first) == aggregated(second),
    decreases first.len(),
{
    if first.len() > 0 {
        lemma_aggregated_deterministic(first.drop_last(), second.drop_last());
        assert(first.last() == first[first.len() - 1]);
    }
}

/// Two runs on rules that agree in name, query and evaluation time end the
/// same way: with the same text of the graph, character for character, or
/// with the same failure.
pub proof fn lemma_same_rules_same_text(first: Seq<Rule>, second: Seq<Rule>)
    requires
        first.len() == second.len(),
        forall|i: int|
            0 <= i < first.len() ==> {
                &&& (#[trigger] first[i]).name@ == second[i].name@
                &&& first[i].query@ == second[i].query@
                &&& first[i].evaluation_time == second[i].evaluation_time
            },
    ensures
        match aggregated(first) {
            Ok(state) => aggregated(second) is Ok && dot_text(aggregated(second)->Ok_0.graph)
                == dot_text(state.graph),
            Err(failure) => aggregated(second) == Err::<DependenciesView, FailureView>(failure),
        },
{
    lemma_aggregated_deterministic(first, second);
}

/// Without rules, aggregation gives the state without rules, whose graph
/// is written as the header and the footer, with no line between them.
pub proof fn lemma_aggregated_nothing(rules: Seq<Rule>)
    requires
        rules.len() == 0,
    ensures
        aggregated(rules) == Ok::<DependenciesView, FailureView>(nothing()),
        dot_text(nothing().graph) == header() + footer(),
{
    lemma_empty_graph_text();
}

/// Once a rule has failed, the rules behind it change nothing.
pub proof fn lemma_failure_stays(rules: Seq<Rule>, n: int)
    requires
        0 <= n <= rules.len(),
        aggregated(rules.take(n)) is Err,
    ensures
        aggregated(rules) == aggregated(rules.take(n)),
    decreases rules.len() - n,
{
    if n < rules.len() {
        assert(rules.take(n + 1).drop_last() =~= rules.take(n));
        lemma_failure_stays(rules, n + 1);
    } else {
        assert(rules.take(n) =~= rules);
    }
}

/// The rules of a sequence of groups are the rules of the groups before
/// the one at `at`, the rules of that group, and the rules of the groups
/// behind it.
pub proof fn lemma_group_rules_split(groups: Seq<Group>, at: int)
    requires
        0 <= at < groups.len(),
    ensures
        group_rules(groups) == group_rules(groups.take(at)) + groups[at].rules@ + group_rules(
            groups.skip(at + 1),
        ),
        group_rules(groups.take(at + 1)) == group_rules(groups.take(at)) + groups[at].rules@,
{
    let rules_of = |group: Group| group.rules@;
    let front = groups.take(at).map_values(rules_of);
    let back = groups.skip(at + 1).map_values(rules_of);
    assert(groups.map_values(rules_of) =~= front.push(groups[at].rules@) + back);
    assert(groups.take(at + 1).map_values(rules_of) =~= front.push(groups[at].rules@));
    lemma_flatten_concat(front.push(groups[at].rules@), back);
    front.lemma_flatten_push(groups[at].rules@);
}

impl Dependencies {
    /// The invariant of the state: those of its parts.
    pub open spec fn wf(&self) -> bool {
        self.graph.wf() && self.evaluation_times.wf()
    }

    /// Makes the state without rules.
    pub fn new() -> (state: Dependencies)
        ensures
            state.wf(),
            state@ == nothing(),
    {
        Dependencies { graph: DependencyGraph::new(), evaluation_times: EvaluationTimes::new() }
    }
}

/// Records one rule whose query has the tree `expr`: its evaluation time
/// under its name, and an edge to it from each metric that the tree reads,
/// once for each selector that names the metric.
pub fn record_rule(state: &mut Dependencies, rule: &String, evaluation_time: u64, expr: Expr)
    requires
        old(state).wf(),
    ensures
        final(state).wf(),
        final(state)@ == record(old(state)@, rule@, evaluation_time, expr@),
{
    let ghost graph = state.graph@;
    state.evaluation_times.insert(rule.clone(), evaluation_time);
    let deps = get_metic_dependencies(expr);
    let ghost names = names_view(deps@);
    let mut i: usize = 0;
    proof {
        assert(names.take(0) =~= Seq::<Seq<char>>::empty());
    }
    while i < deps.len()
        invariant
            i <= deps.len(),
            names == names_view(deps@),
            state.graph.wf(),
            state.evaluation_times.wf(),
            state.evaluation_times@ == old(state).evaluation_times@.insert(rule@, evaluation_time),
            state.graph@ == add_edges(graph, names.take(i as int), rule@),
        decreases deps.len() - i,
    {
        proof {
            assert(names.take(i + 1).drop_last() =~= names.take(i as int));
        }
        state.graph.insert(deps[i].clone(), rule.clone());
        i = i + 1;
    }
    proof {
        assert(names.take(deps.len() as int) =~= names);
    }
}

/// Aggregates a snapshot: records every rule, group by group, in the order
/// of the source. The first rule whose query has no tree ends the run:
/// nothing of the graph comes back then, only that rule, its query and the
/// cause.
pub fn aggregate(snapshot: &Rules) -> (r: Result<Dependencies, AggregateError>)
    ensures
        match r {
            Ok(state) => state.wf() && aggregated(snapshot_rules(*snapshot)) == Ok::<
                DependenciesView,
                FailureView,
            >(state@),
            Err(error) => aggregated(snapshot_rules(*snapshot)) == Err::<
                DependenciesView,
                FailureView,
            >(error@),
        },
{
    let mut state = Dependencies::new();
    let groups = &snapshot.data.groups;
    let ghost all = snapshot_rules(*snapshot);
    let mut g: usize = 0;
    proof {
        assert(groups@.take(0) =~= Seq::<Group>::empty());
        assert(group_rules(groups@.take(0)) =~= Seq::<Rule>::empty());
    }
    while g < groups.len()
        invariant
            g <= groups.len(),
            groups == &snapshot.data.groups,
            all == snapshot_rules(*snapshot),
            state.wf(),
            aggregated(group_rules(groups@.take(g as int))) == Ok::<DependenciesView, FailureView>(
                state@,
            ),
        decreases groups.len() - g,
    {
        let group = &groups[g];
        let ghost before = group_rules(groups@.take(g as int));
        let ghost behind = group_rules(groups@.skip(g + 1));
        let mut k: usize = 0;
        proof {
            lemma_group_rules_split(groups@, g as int);
            assert(before + group.rules@.take(0) =~= before);
        }
        while k < group.rules.len()
            invariant
                k <= group.rules.len(),
                all == snapshot_rules(*snapshot),
                all == before + group.rules@ + behind,
                state.wf(),
                aggregated(before + group.rules@.take(k as int)) == Ok::<
                    DependenciesView,
                    FailureView,
                >(state@),
            decreases group.rules.len() - k,
        {
            let rule = &group.rules[k];
            let ghost done = before + group.rules@.take(k as int);
            proof {
                assert(before + group.rules@.take(k + 1) =~= done.push(*rule));
                assert(done.push(*rule).drop_last() =~= done);
            }
            match parse_query(rule.query.as_str().as_bytes()) {
                Ok(expr) => {
                    record_rule(&mut state, &rule.name, rule.evaluation_time, expr);
                },
                Err(cause) => {
                    let error = AggregateError {
                        rule: rule.name.clone(),
                        query: rule.query.clone(),
                        cause,
                    };
                    proof {
                        assert(error@ == (FailureView {
                            rule: rule.name@,
                            query: rule.query@,
                            cause,
                        }));
                        assert(aggregated(done.push(*rule)) == Err::<DependenciesView, FailureView>(
                            error@,
                        ));
                        assert(all.take(done.len() as int + 1) =~= done.push(*rule));
                        lemma_failure_stays(all, done.len() as int + 1);
                    }
                    return Err(error);
                },
            }
            k = k + 1;
        }
        proof {
            assert(group.rules@.take(group.rules.len() as int) =~= group.rules@);
        }
        g = g + 1;
    }
    proof {
        assert(groups@.take(groups.len() as int) =~= groups@);
    }
    Ok(state)
}

} // verus!
