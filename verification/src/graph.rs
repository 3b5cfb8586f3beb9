//! The dependency multigraph: for each metric, the rules that read it.
//!
//! The rules of a metric are kept in a `MultiMap` of the `multimap` crate,
//! which walks its keys in no fixed order. The graph therefore keeps the
//! metrics beside it, each once, in the order in which they were first
//! inserted: that order and the map together fix what is written out.

use crate::ast::{count_of, is_name, names_view};
use multimap::MultiMap;
use vstd::prelude::*;

verus! {

/// The multimap of the `multimap` crate, `multimap::MultiMap`. Nothing is
/// known of a value but what [`multimap_contents`] names.
#[verifier::external_type_specification]
#[verifier::external_body]
#[verifier::reject_recursive_types(K)]
#[verifier::reject_recursive_types(V)]
#[verifier::reject_recursive_types(S)]
pub struct ExMultiMap<K, V, S>(MultiMap<K, V, S>);

/// What a multimap holds: for each key the values inserted under it, in
/// the order of their insertion.
pub uninterp spec fn multimap_contents(map: MultiMap<String, String>) -> Map<
    Seq<char>,
    Seq<Seq<char>>,
>;

/// The contents of a multimap without keys.
pub open spec fn no_contents() -> Map<Seq<char>, Seq<Seq<char>>> {
    Map::empty()
}

/// Calls `MultiMap::new`: the new multimap holds nothing.
#[verifier::external_body]
fn multimap_new() -> (made: MultiMap<String, String>)
    ensures
        multimap_contents(made) == no_contents(),
{
    MultiMap::new()
}

/// Calls `MultiMap::insert`: the value goes behind the values that the key
/// has, or becomes the first value of a new key; other keys keep theirs.
#[verifier::external_body]
fn multimap_insert(map: &mut MultiMap<String, String>, key: String, value: String)
    ensures
        multimap_contents(*final(map)) == multimap_contents(*old(map)).insert(
            key@,
            if multimap_contents(*old(map)).dom().contains(key@) {
                multimap_contents(*old(map))[key@].push(value@)
            } else {
                seq![value@]
            },
        ),
{
    map.insert(key, value)
}

/// Calls `MultiMap::contains_key`: whether the key has values.
#[verifier::external_body]
fn multimap_contains_key(map: &MultiMap<String, String>, key: &String) -> (found: bool)
    ensures
        found == multimap_contents(*map).dom().contains(key@),
{
    map.contains_key(key)
}

/// Calls `MultiMap::get_vec`: the values of the key, where it has any.
#[verifier::external_body]
fn multimap_get_vec<'a>(map: &'a MultiMap<String, String>, key: &String) -> (values: Option<
    &'a Vec<String>,
>)
    ensures
        match values {
            Some(v) => multimap_contents(*map).dom().contains(key@) && names_view(v@)
                == multimap_contents(*map)[key@],
            None => !multimap_contents(*map).dom().contains(key@),
        },
{
    map.get_vec(key)
}

/// The mathematical value of a [`DependencyGraph`].
pub struct GraphView {
    /// The metrics, each once, in the order of their first insertion.
    pub metrics: Seq<Seq<char>>,
    /// For each metric the rules that read it, once for each selector that
    /// names it, in the order of insertion.
    pub rules: Map<Seq<char>, Seq<Seq<char>>>,
}

impl GraphView {
    /// No metric is listed twice, and the listed metrics are those that
    /// have rules.
    pub open spec fn wf(self) -> bool {
        &&& self.metrics.no_duplicates()
        &&& forall|metric: Seq<char>|
            self.rules.dom().contains(metric) <==> self.metrics.contains(metric)
    }

    /// The graph without edges.
    pub open spec fn empty() -> GraphView {
        GraphView { metrics: Seq::empty(), rules: Map::empty() }
    }

    /// The graph with one more edge from `metric` to `rule`, behind the
    /// edges that the metric has.
    pub open spec fn insert(self, metric: Seq<char>, rule: Seq<char>) -> GraphView {
        if self.rules.dom().contains(metric) {
            GraphView {
                metrics: self.metrics,
                rules: self.rules.insert(metric, self.rules[metric].push(rule)),
            }
        } else {
            GraphView {
                metrics: self.metrics.push(metric),
                rules: self.rules.insert(metric, seq![rule]),
            }
        }
    }
}

/// How many edges lead from `metric` to `rule`.
pub open spec fn edge_count(graph: GraphView, metric: Seq<char>, rule: Seq<char>) -> nat {
    if graph.rules.dom().contains(metric) {
        count_of(graph.rules[metric], rule)
    } else {
        0
    }
}

/// Inserting an edge adds one to the count of that edge and leaves the
/// count of every other edge as it was, whether or not the edge was there
/// before.
pub proof fn lemma_insert_edge_count(
    graph: GraphView,
    metric: Seq<char>,
    rule: Seq<char>,
    other_metric: Seq<char>,
    other_rule: Seq<char>,
)
    ensures
        edge_count(graph.insert(metric, rule), other_metric, other_rule) == edge_count(
            graph,
            other_metric,
            other_rule,
        ) + if other_metric == metric && other_rule == rule {
            1nat
        } else {
            0nat
        },
{
    if other_metric == metric {
        if graph.rules.dom().contains(metric) {
            graph.rules[metric].lemma_filter_push(rule, is_name(other_rule));
        } else {
            assert(seq![rule] =~= Seq::<Seq<char>>::empty().push(rule));
            Seq::<Seq<char>>::empty().lemma_filter_push(rule, is_name(other_rule));
            assert(Seq::<Seq<char>>::empty().filter(is_name(other_rule)) =~= Seq::<
                Seq<char>,
            >::empty());
        }
    }
}

/// Inserting an edge keeps the invariant of the graph.
pub proof fn lemma_insert_wf(graph: GraphView, metric: Seq<char>, rule: Seq<char>)
    requires
        graph.wf(),
    ensures
        graph.insert(metric, rule).wf(),
{
    let after = graph.insert(metric, rule);
    if !graph.rules.dom().contains(metric) {
        assert(after.metrics.no_duplicates()) by {
            assert forall|i: int, j: int|
                0 <= i < after.metrics.len() && 0 <= j < after.metrics.len() && i != j implies after.metrics[i]
                != after.metrics[j] by {
                if i < graph.metrics.len() {
                    assert(graph.metrics.contains(after.metrics[i]));
                }
                if j < graph.metrics.len() {
                    assert(graph.metrics.contains(after.metrics[j]));
                }
            }
        }
        assert forall|m: Seq<char>| after.rules.dom().contains(m) <==> after.metrics.contains(
            m,
        ) by {
            if m == metric {
                assert(after.metrics[graph.metrics.len() as int] == metric);
            } else if graph.metrics.contains(m) {
                let i = choose|i: int| 0 <= i < graph.metrics.len() && graph.metrics[i] == m;
                assert(after.metrics[i] == m);
            }
        }
    }
}

/// The multigraph from metric to dependent rule.
pub struct DependencyGraph {
    edges: MultiMap<String, String>,
    metrics: Vec<String>,
}

impl View for DependencyGraph {
    type V = GraphView;

    closed spec fn view(&self) -> GraphView {
        GraphView { metrics: names_view(self.metrics@), rules: multimap_contents(self.edges) }
    }
}

impl DependencyGraph {
    /// The invariant of the graph: that of its value.
    pub closed spec fn wf(&self) -> bool {
        self@.wf()
    }

    /// Each listed metric has rules.
    pub proof fn lemma_listed_metric_has_rules(&self, i: int)
        requires
            self.wf(),
            0 <= i < self@.metrics.len(),
        ensures
            self@.rules.dom().contains(self@.metrics[i]),
    {
        assert(self@.metrics.contains(self@.metrics[i]));
    }

    /// Makes a graph without edges.
    pub fn new() -> (graph: DependencyGraph)
        ensures
            graph.wf(),
            graph@ == GraphView::empty(),
    {
        let graph = DependencyGraph { edges: multimap_new(), metrics: Vec::new() };
        proof {
            assert(names_view(graph.metrics@) =~= Seq::<Seq<char>>::empty());
        }
        graph
    }

    /// Inserts an edge from `metric` to `rule`. An edge that is there
    /// already is inserted once more.
    pub fn insert(&mut self, metric: String, rule: String)
        requires
            old(self).wf(),
        ensures
            final(self).wf(),
            final(self)@ == old(self)@.insert(metric@, rule@),
    {
        let ghost before = self@;
        if !multimap_contains_key(&self.edges, &metric) {
            self.metrics.push(metric.clone());
            proof {
                assert(names_view(self.metrics@) =~= before.metrics.push(metric@));
            }
        }
        multimap_insert(&mut self.edges, metric, rule);
        proof {
            lemma_insert_wf(before, metric@, rule@);
        }
    }

    /// The metrics, each once, in the order of their first insertion.
    pub fn metrics(&self) -> (metrics: &Vec<String>)
        ensures
            names_view(metrics@) == self@.metrics,
    {
        &self.metrics
    }

    /// The rules that read `metric`, once for each edge, in the order of
    /// insertion; `None` where no rule reads it.
    pub fn dependents(&self, metric: &String) -> (rules: Option<&Vec<String>>)
        ensures
            match rules {
                Some(v) => self@.rules.dom().contains(metric@) && names_view(v@)
                    == self@.rules[metric@],
                None => !self@.rules.dom().contains(metric@),
            },
    {
        multimap_get_vec(&self.edges, metric)
    }
}

} // verus!
