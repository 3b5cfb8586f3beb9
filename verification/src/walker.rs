//! The walk over an expression tree that collects the metric names it reads.

use crate::ast::{
    forest_names, forest_size, forest_view, lemma_forest_names_concat, lemma_forest_names_push,
    lemma_forest_size_concat, lemma_forest_size_push,
    matcher_value, metric_names, name_label, on_name_label, names_view, selector_names, Matcher, MatcherView, Expr, ExprView,
};
use vstd::prelude::*;
use vstd::string::*;

verus! {

/// Appends to `metrics` the metric names of one selector: the value of each
/// matcher on the reserved label, in the order of the matchers.
pub fn collect_selector_names(matchers: &Vec<Matcher>, metrics: &mut Vec<String>)
    ensures
        names_view(final(metrics)@) == names_view(old(metrics)@) + selector_names(
            matchers@.map_values(|m: Matcher| m@),
        ),
{
    let label = String::from_str("__name__");
    let ghost views = matchers@.map_values(|m: Matcher| m@);
    let mut i: usize = 0;
    proof {
        assert(views.take(0) =~= Seq::<MatcherView>::empty());
        assert(names_view(metrics@) + selector_names(views.take(0)) =~= names_view(metrics@));
    }
    while i < matchers.len()
        invariant
            i <= matchers.len(),
            label@ == name_label(),
            views == matchers@.map_values(|m: Matcher| m@),
            names_view(metrics@) == names_view(old(metrics)@) + selector_names(
                views.take(i as int),
            ),
        decreases matchers.len() - i,
    {
        let ghost before = metrics@;
        let ghost seen = views.take(i as int);
        let ghost is_name = on_name_label();
        let ghost value_of = matcher_value();
        proof {
            assert(views.take(i + 1) =~= seen.push(views[i as int]));
            seen.lemma_filter_push(views[i as int], is_name);
        }
        if matchers[i].name == label {
            metrics.push(matchers[i].value.clone());
            proof {
                assert(names_view(metrics@) =~= names_view(before).push(views[i as int].value));
                assert(seen.filter(is_name).push(views[i as int]).map_values(value_of)
                    =~= seen.filter(is_name).map_values(value_of).push(views[i as int].value));
            }
        }
        i = i + 1;
    }
    proof {
        assert(views.take(matchers.len() as int) =~= views);
    }
}

/// Returns the metric names that the expression reads, each as often as a
/// selector names it. The tree is walked with an explicit stack, so later
/// operands and arguments come first.
pub fn get_metic_dependencies(n: Expr) -> (metrics: Vec<String>)
    ensures
        names_view(metrics@) == metric_names(n@),
{
    let ghost root = n@;
    let mut node_queue: Vec<Expr> = Vec::new();
    let mut metrics: Vec<String> = Vec::new();
    node_queue.push(n);
    proof {
        let none = Seq::<ExprView>::empty();
        assert(forest_view(node_queue@) =~= none.push(root));
        lemma_forest_names_push(none, root);
        assert(names_view(metrics@) =~= Seq::<Seq<char>>::empty());
        assert(names_view(metrics@) + (metric_names(root) + forest_names(none)) =~= metric_names(
            root,
        ));
    }
    while node_queue.len() > 0
        invariant
            names_view(metrics@) + forest_names(forest_view(node_queue@)) == metric_names(root),
        decreases forest_size(forest_view(node_queue@)),
    {
        let ghost before = forest_view(node_queue@);
        let ghost found = names_view(metrics@);
        let node = node_queue.pop().unwrap();
        let ghost rest = forest_view(node_queue@);
        let ghost top = node@;
        proof {
            assert(before =~= rest.push(top));
            lemma_forest_names_push(rest, top);
            lemma_forest_size_push(rest, top);
        }
        match node {
            Expr::Operator { left, right } => {
                let ghost l = left@;
                let ghost r = right@;
                node_queue.push(*left);
                node_queue.push(*right);
                proof {
                    assert(top == (ExprView::Operator { left: Box::new(l), right: Box::new(r) }));
                    assert(forest_view(node_queue@) =~= rest.push(l).push(r));
                    lemma_forest_names_push(rest, l);
                    lemma_forest_names_push(rest.push(l), r);
                    lemma_forest_size_push(rest, l);
                    lemma_forest_size_push(rest.push(l), r);
                    assert(metric_names(r) + (metric_names(l) + forest_names(rest)) =~= (
                    metric_names(r) + metric_names(l)) + forest_names(rest));
                }
            },
            Expr::Vector { matchers } => {
                let ghost names = selector_names(matchers@.map_values(|m: Matcher| m@));
                collect_selector_names(&matchers, &mut metrics);
                proof {
                    assert(top == (ExprView::Vector {
                        matchers: matchers@.map_values(|m: Matcher| m@),
                    }));
                    assert((found + names) + forest_names(rest) =~= found + (names + forest_names(
                        rest,
                    )));
                }
            },
            Expr::Scalar => {
                proof {
                    assert(top == ExprView::Scalar);
                    assert(Seq::<Seq<char>>::empty() + forest_names(rest) =~= forest_names(rest));
                }
            },
            Expr::String => {
                proof {
                    assert(top == ExprView::String);
                    assert(Seq::<Seq<char>>::empty() + forest_names(rest) =~= forest_names(rest));
                }
            },
            Expr::Function { args } => {
                let ghost children = forest_view(args@);
                let mut args = args;
                node_queue.append(&mut args);
                proof {
                    assert(top->Function_args =~= children);
                    assert(top == (ExprView::Function { args: children }));
                    assert(forest_view(node_queue@) =~= rest + children);
                    lemma_forest_names_concat(rest, children);
                    lemma_forest_size_concat(rest, children);
                }
            },
            Expr::Negation { child } => {
                let ghost c = child@;
                node_queue.push(*child);
                proof {
                    assert(top == (ExprView::Negation { child: Box::new(c) }));
                    assert(forest_view(node_queue@) =~= rest.push(c));
                    lemma_forest_names_push(rest, c);
                    lemma_forest_size_push(rest, c);
                }
            },
        }
    }
    proof {
        assert(forest_view(node_queue@) =~= Seq::<ExprView>::empty());
        assert(names_view(metrics@) + Seq::<Seq<char>>::empty() =~= names_view(metrics@));
    }
    metrics
}

} // verus!
