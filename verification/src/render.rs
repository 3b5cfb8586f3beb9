//! The dependency graph written in the DOT language.

use crate::ast::{count_of, is_name, names_view};
use crate::graph::{edge_count, DependencyGraph, GraphView};
use vstd::prelude::*;
use vstd::std_specs::iter::IteratorSpec;
use vstd::string::*;

verus! {

/// The lines that open the graph.
pub open spec fn header() -> Seq<char> {
    "digraph {\n  rankdir=\"LR\";\n"@
}

/// The line that closes the graph.
pub open spec fn footer() -> Seq<char> {
    "}\n"@
}

/// A character as it stands between double quotes: a double quote and a
/// backslash behind a backslash, any other as it is.
pub open spec fn escaped(c: char) -> Seq<char> {
    if c == '"' || c == '\\' {
        seq!['\\', c]
    } else {
        seq![c]
    }
}

/// The map from a character to the characters that stand for it.
pub open spec fn escaping() -> spec_fn(char) -> Seq<char> {
    |c: char| escaped(c)
}

/// A name as it stands between double quotes.
pub open spec fn escape(name: Seq<char>) -> Seq<char> {
    name.flat_map(escaping())
}

/// The line of one edge.
pub open spec fn edge_line(metric: Seq<char>, rule: Seq<char>) -> Seq<char> {
    "  \""@ + escape(metric) + "\" -> \""@ + escape(rule) + "\";\n"@
}

/// An edge of the graph: the rule reads the metric.
pub struct Edge {
    pub metric: Seq<char>,
    pub rule: Seq<char>,
}

/// The map from an edge to its line.
pub open spec fn line_of() -> spec_fn(Edge) -> Seq<char> {
    |edge: Edge| edge_line(edge.metric, edge.rule)
}

/// The map from a rule to its edge from `metric`.
pub open spec fn edge_from(metric: Seq<char>) -> spec_fn(Seq<char>) -> Edge {
    |rule: Seq<char>| Edge { metric, rule }
}

/// The map from a metric to its edges.
pub open spec fn edges_under(rules: Map<Seq<char>, Seq<Seq<char>>>) -> spec_fn(Seq<char>) -> Seq<
    Edge,
> {
    |metric: Seq<char>| rules[metric].map_values(edge_from(metric))
}

/// The edges of the given metrics, metric by metric, those of one metric
/// in the order of insertion.
pub open spec fn edges_of(metrics: Seq<Seq<char>>, rules: Map<Seq<char>, Seq<Seq<char>>>) -> Seq<
    Edge,
> {
    metrics.flat_map(edges_under(rules))
}

impl GraphView {
    /// The edges of the graph in the order in which they are written: the
    /// metrics in the order of their first insertion, the edges of one
    /// metric in the order of insertion.
    pub open spec fn edges(self) -> Seq<Edge> {
        edges_of(self.metrics, self.rules)
    }
}

/// The lines of a sequence of edges, one for each, in the same order.
pub open spec fn lines_of(edges: Seq<Edge>) -> Seq<Seq<char>> {
    edges.map_values(line_of())
}

/// The lines of a sequence of edges as one text.
pub open spec fn edge_lines(edges: Seq<Edge>) -> Seq<char> {
    lines_of(edges).flatten()
}

/// The text of a graph: the header, a line for each edge, the footer.
pub open spec fn dot_text(graph: GraphView) -> Seq<char> {
    header() + edge_lines(graph.edges()) + footer()
}

/// Escaping a name with one more character adds what stands for it.
pub proof fn lemma_escape_push(name: Seq<char>, c: char)
    ensures
        escape(name.push(c)) == escape(name) + escaped(c),
{
    assert(name.push(c).map_values(escaping()) =~= name.map_values(escaping()).push(escaped(c)));
    name.map_values(escaping()).lemma_flatten_push(escaped(c));
}

/// One more edge adds its line.
pub proof fn lemma_edge_lines_push(edges: Seq<Edge>, edge: Edge)
    ensures
        edge_lines(edges.push(edge)) == edge_lines(edges) + edge_line(edge.metric, edge.rule),
{
    assert(edges.push(edge).map_values(line_of()) =~= edges.map_values(line_of()).push(
        edge_line(edge.metric, edge.rule),
    ));
    edges.map_values(line_of()).lemma_flatten_push(edge_line(edge.metric, edge.rule));
}

/// One more metric adds its edges.
pub proof fn lemma_edges_of_push(
    metrics: Seq<Seq<char>>,
    rules: Map<Seq<char>, Seq<Seq<char>>>,
    metric: Seq<char>,
)
    ensures
        edges_of(metrics.push(metric), rules) == edges_of(metrics, rules) + rules[metric].map_values(
            edge_from(metric),
        ),
{
    let under = edges_under(rules);
    assert(metrics.push(metric).map_values(under) =~= metrics.map_values(under).push(
        under(metric),
    ));
    metrics.map_values(under).lemma_flatten_push(under(metric));
}

/// The test for the edge from `metric` to `rule`.
pub open spec fn is_edge(metric: Seq<char>, rule: Seq<char>) -> spec_fn(Edge) -> bool {
    |edge: Edge| edge.metric == metric && edge.rule == rule
}

/// Among the edges from one metric, an edge occurs as often as its rule
/// occurs among the rules.
pub proof fn lemma_edges_under_count(
    rules: Seq<Seq<char>>,
    from: Seq<char>,
    metric: Seq<char>,
    rule: Seq<char>,
)
    ensures
        rules.map_values(edge_from(from)).filter(is_edge(metric, rule)).len() == if from
            == metric {
            count_of(rules, rule)
        } else {
            0nat
        },
    decreases rules.len(),
{
    let none = Seq::<Edge>::empty();
    if rules.len() == 0 {
        assert(rules.map_values(edge_from(from)) =~= none);
        assert(none.filter(is_edge(metric, rule)) =~= none);
        assert(rules.filter(is_name(rule)) =~= Seq::<Seq<char>>::empty());
    } else {
        let front = rules.drop_last();
        let last = rules.last();
        lemma_edges_under_count(front, from, metric, rule);
        assert(rules =~= front.push(last));
        assert(rules.map_values(edge_from(from)) =~= front.map_values(edge_from(from)).push(
            Edge { metric: from, rule: last },
        ));
        front.map_values(edge_from(from)).lemma_filter_push(
            Edge { metric: from, rule: last },
            is_edge(metric, rule),
        );
        front.lemma_filter_push(last, is_name(rule));
    }
}

/// Among the edges of metrics that are listed once each, an edge occurs
/// as often as its rule occurs among the rules of its metric.
pub proof fn lemma_edges_of_count(
    metrics: Seq<Seq<char>>,
    rules: Map<Seq<char>, Seq<Seq<char>>>,
    metric: Seq<char>,
    rule: Seq<char>,
)
    requires
        metrics.no_duplicates(),
    ensures
        edges_of(metrics, rules).filter(is_edge(metric, rule)).len() == if metrics.contains(
            metric,
        ) {
            count_of(rules[metric], rule)
        } else {
            0nat
        },
    decreases metrics.len(),
{
    let none = Seq::<Edge>::empty();
    if metrics.len() == 0 {
        assert(metrics.map_values(edges_under(rules)) =~= Seq::<Seq<Edge>>::empty());
        assert(edges_of(metrics, rules) =~= none);
        assert(none.filter(is_edge(metric, rule)) =~= none);
    } else {
        let front = metrics.drop_last();
        let last = metrics.last();
        assert(metrics =~= front.push(last));
        assert(front.no_duplicates());
        lemma_edges_of_count(front, rules, metric, rule);
        lemma_edges_of_push(front, rules, last);
        lemma_edges_under_count(rules[last], last, metric, rule);
        Seq::filter_distributes_over_add(
            edges_of(front, rules),
            rules[last].map_values(edge_from(last)),
            is_edge(metric, rule),
        );
        if front.contains(metric) {
            let i = choose|i: int| 0 <= i < front.len() && front[i] == metric;
            assert(metrics[i] == metric);
            assert(metrics.contains(metric));
            assert(last != metric);
        } else if last == metric {
            assert(metrics[metrics.len() - 1] == metric);
        } else {
            if metrics.contains(metric) {
                let i = choose|i: int| 0 <= i < metrics.len() && metrics[i] == metric;
                assert(front[i] == metric);
            }
        }
    }
}

/// A graph is written with each edge as often as it was inserted: once
/// for each time that its rule stands among the rules of its metric.
pub proof fn lemma_written_edge_count(graph: GraphView, metric: Seq<char>, rule: Seq<char>)
    requires
        graph.wf(),
    ensures
        graph.edges().filter(is_edge(metric, rule)).len() == edge_count(graph, metric, rule),
{
    lemma_edges_of_count(graph.metrics, graph.rules, metric, rule);
}

/// The line of an edge stands among the lines at least as often as the
/// edge stands among the edges.
pub proof fn lemma_lines_count(edges: Seq<Edge>, metric: Seq<char>, rule: Seq<char>)
    ensures
        count_of(lines_of(edges), edge_line(metric, rule)) >= edges.filter(
            is_edge(metric, rule),
        ).len(),
    decreases edges.len(),
{
    let line = edge_line(metric, rule);
    if edges.len() == 0 {
        assert(edges.filter(is_edge(metric, rule)) =~= edges);
    } else {
        let front = edges.drop_last();
        let last = edges.last();
        lemma_lines_count(front, metric, rule);
        assert(edges =~= front.push(last));
        assert(lines_of(edges) =~= lines_of(front).push(edge_line(last.metric, last.rule)));
        front.lemma_filter_push(last, is_edge(metric, rule));
        lines_of(front).lemma_filter_push(edge_line(last.metric, last.rule), is_name(line));
    }
}

/// A graph is written with a line for each edge: the line of an edge
/// stands in the text at least as often as the edge was inserted.
pub proof fn lemma_written_lines(graph: GraphView, metric: Seq<char>, rule: Seq<char>)
    requires
        graph.wf(),
    ensures
        dot_text(graph) == header() + lines_of(graph.edges()).flatten() + footer(),
        lines_of(graph.edges()).len() == graph.edges().len(),
        count_of(lines_of(graph.edges()), edge_line(metric, rule)) >= edge_count(
            graph,
            metric,
            rule,
        ),
{
    lemma_written_edge_count(graph, metric, rule);
    lemma_lines_count(graph.edges(), metric, rule);
}

/// A graph without edges is written as the header and the footer, with
/// no line between them.
pub proof fn lemma_empty_graph_text()
    ensures
        dot_text(GraphView::empty()) == header() + footer(),
{
    let graph = GraphView::empty();
    assert(graph.metrics.map_values(edges_under(graph.rules)) =~= Seq::<Seq<Edge>>::empty());
    assert(graph.edges() =~= Seq::<Edge>::empty());
    assert(graph.edges().map_values(line_of()) =~= Seq::<Seq<char>>::empty());
    assert(edge_lines(graph.edges()) =~= Seq::<char>::empty());
    assert(header() + Seq::<char>::empty() + footer() =~= header() + footer());
}

/// Calls `String::push`: the character goes behind those that the string
/// holds.
#[verifier::external_body]
fn push_char(text: &mut String, c: char)
    ensures
        final(text)@ == old(text)@.push(c),
{
    text.push(c)
}

/// Appends `name` to `text` as it stands between double quotes.
pub fn push_escaped(text: &mut String, name: &String)
    ensures
        final(text)@ == old(text)@ + escape(name@),
{
    let mut chars = name.as_str().chars();
    let ghost mut done: Seq<char> = Seq::empty();
    proof {
        assert(escape(done) =~= Seq::<char>::empty());
        assert(text@ + escape(done) =~= text@);
        assert(done + chars.remaining() =~= name@);
    }
    loop
        invariant
            text@ == old(text)@ + escape(done),
            done + chars.remaining() == name@,
            chars.decrease() is Some,
        ensures
            text@ == old(text)@ + escape(name@),
        decreases chars.decrease()->0,
    {
        let ghost before = chars.remaining();
        match chars.next() {
            Some(c) => {
                proof {
                    lemma_escape_push(done, c);
                    assert(done.push(c) + chars.remaining() =~= done + before);
                }
                if c == '"' || c == '\\' {
                    push_char(text, '\\');
                }
                push_char(text, c);
                proof {
                    assert(text@ =~= old(text)@ + (escape(done) + escaped(c)));
                    done = done.push(c);
                }
            },
            None => {
                proof {
                    assert(done + before =~= done);
                }
                break ;
            },
        }
    }
}

/// Appends the line of the edge from `metric` to `rule` to `text`.
pub fn push_edge_line(text: &mut String, metric: &String, rule: &String)
    ensures
        final(text)@ == old(text)@ + edge_line(metric@, rule@),
{
    text.append("  \"");
    push_escaped(text, metric);
    text.append("\" -> \"");
    push_escaped(text, rule);
    text.append("\";\n");
    proof {
        assert(text@ =~= old(text)@ + edge_line(metric@, rule@));
    }
}

/// Writes the graph in the DOT language: the header, then for every metric,
/// in the order of first insertion, a line for each of its edges in the
/// order of insertion, then the footer.
pub fn dot_digraph(graph: &DependencyGraph) -> (text: String)
    requires
        graph.wf(),
    ensures
        text@ == dot_text(graph@),
{
    let mut text = String::new();
    text.append("digraph {\n  rankdir=\"LR\";\n");
    let metrics = graph.metrics();
    let ghost rules = graph@.rules;
    let mut i: usize = 0;
    proof {
        assert(graph@.metrics.take(0) =~= Seq::<Seq<char>>::empty());
        assert(edges_of(graph@.metrics.take(0), rules) =~= Seq::<Edge>::empty());
        assert(edge_lines(Seq::<Edge>::empty()) =~= Seq::<char>::empty());
        assert(text@ =~= header() + edge_lines(edges_of(graph@.metrics.take(0), rules)));
    }
    while i < metrics.len()
        invariant
            i <= metrics.len(),
            graph.wf(),
            rules == graph@.rules,
            names_view(metrics@) == graph@.metrics,
            text@ == header() + edge_lines(edges_of(graph@.metrics.take(i as int), rules)),
        decreases metrics.len() - i,
    {
        let metric = &metrics[i];
        let ghost done = edges_of(graph@.metrics.take(i as int), rules);
        proof {
            assert(graph@.metrics.take(i + 1) =~= graph@.metrics.take(i as int).push(metric@));
            lemma_edges_of_push(graph@.metrics.take(i as int), rules, metric@);
        }
        match graph.dependents(metric) {
            Some(dependents) => {
                let ghost these = names_view(dependents@);
                let mut j: usize = 0;
                proof {
                    assert(these.take(0).map_values(edge_from(metric@)) =~= Seq::<Edge>::empty());
                    assert(done + these.take(0).map_values(edge_from(metric@)) =~= done);
                }
                while j < dependents.len()
                    invariant
                        j <= dependents.len(),
                        these == names_view(dependents@),
                        text@ == header() + edge_lines(
                            done + these.take(j as int).map_values(edge_from(metric@)),
                        ),
                    decreases dependents.len() - j,
                {
                    let ghost so_far = done + these.take(j as int).map_values(edge_from(metric@));
                    push_edge_line(&mut text, metric, &dependents[j]);
                    proof {
                        assert(these.take(j + 1) =~= these.take(j as int).push(these[j as int]));
                        assert(done + these.take(j + 1).map_values(edge_from(metric@))
                            =~= so_far.push(Edge { metric: metric@, rule: these[j as int] }));
                        lemma_edge_lines_push(
                            so_far,
                            Edge { metric: metric@, rule: these[j as int] },
                        );
                        assert(text@ =~= header() + (edge_lines(so_far) + edge_line(
                            metric@,
                            these[j as int],
                        )));
                    }
                    j = j + 1;
                }
                proof {
                    assert(these.take(dependents.len() as int) =~= these);
                }
            },
            None => {
                // A listed metric has rules, so this arm is never taken.
                proof {
                    graph.lemma_listed_metric_has_rules(i as int);
                    assert(false);
                }
            },
        }
        i = i + 1;
    }
    proof {
        assert(graph@.metrics.take(metrics.len() as int) =~= graph@.metrics);
    }
    text.append("}\n");
    text
}

} // verus!
