//! Parsing of query text into an expression tree, by the `promql` crate.

use crate::ast::{forest_view, lemma_forest_size_index, tree_size, Expr, ExprView, Matcher};
use crate::durations::{check_durations, durations_fit};
use vstd::prelude::*;

verus! {

/// The node of the `promql` crate, `promql::Node`: the tree that its parser
/// returns. Nothing is known of a value but what [`promql_node`] names.
#[verifier::external_type_specification]
#[verifier::external_body]
pub struct ExPromqlNode(promql::Node);

/// What `promql::parse` makes of a query: the tree, or `None` where it
/// rejects the text.
pub uninterp spec fn promql_parse(query: Seq<u8>, allow_periods: bool) -> Option<ExprView>;

/// The tree that a node of the `promql` crate holds.
pub uninterp spec fn promql_node(node: promql::Node) -> ExprView;

/// Why a query has no tree.
#[derive(Clone, Copy, Debug, PartialEq, Eq, Structural)]
pub enum QueryError {
    /// A number stands where the parser may read a duration, and it or its
    /// product with the seconds of its unit does not fit a `usize`.
    DurationOutOfRange,
    /// The parser rejects the text.
    Syntax,
}

/// The tree of a query, or why it has none.
pub open spec fn query_tree(query: Seq<u8>) -> Result<ExprView, QueryError> {
    if !durations_fit(query) {
        Err(QueryError::DurationOutOfRange)
    } else {
        match promql_parse(query, false) {
            Some(tree) => Ok(tree),
            None => Err(QueryError::Syntax),
        }
    }
}

/// Calls `promql::parse`, which panics on a duration that does not fit a
/// `usize`: the precondition keeps such a text out. The contract names the
/// tree that comes back and claims no more of it than that the parser
/// returns the same tree for the same text. The parser recurses on the
/// nesting of the text, so the call needs stack in proportion to it.
#[verifier::external_body]
fn parse_expression(query: &[u8], allow_periods: bool) -> (r: Option<promql::Node>)
    requires
        durations_fit(query@),
    ensures
        match r {
            Some(node) => promql_parse(query@, allow_periods) == Some(promql_node(node)),
            None => promql_parse(query@, allow_periods) is None,
        },
{
    promql::parse(query, allow_periods).ok()
}

/// A node of the `promql` crate taken apart: what it holds of its own, and
/// its operands as the crate holds them.
enum Parts {
    Operator { left: promql::Node, right: promql::Node },
    Vector { matchers: Vec<Matcher> },
    Scalar,
    String,
    Function { args: Vec<promql::Node> },
    Negation { child: promql::Node },
}

/// The trees of a sequence of nodes, in the same order.
spec fn promql_nodes(nodes: Seq<promql::Node>) -> Seq<ExprView> {
    nodes.map_values(|node: promql::Node| promql_node(node))
}

/// The tree that the parts make up.
spec fn parts_tree(parts: Parts) -> ExprView {
    match parts {
        Parts::Operator { left, right } => ExprView::Operator {
            left: Box::new(promql_node(left)),
            right: Box::new(promql_node(right)),
        },
        Parts::Vector { matchers } => ExprView::Vector {
            matchers: matchers@.map_values(|m: Matcher| m@),
        },
        Parts::Scalar => ExprView::Scalar,
        Parts::String => ExprView::String,
        Parts::Function { args } => ExprView::Function { args: promql_nodes(args@) },
        Parts::Negation { child } => ExprView::Negation { child: Box::new(promql_node(child)) },
    }
}

/// Takes a node of the `promql` crate apart, variant by variant: the
/// operands of an operator, the label matchers of a selector by name and
/// value, the arguments of a function, the operand of a negation. The
/// contract says that the tree of the node is made of the trees of these
/// parts.
#[verifier::external_body]
fn take_apart(node: promql::Node) -> (parts: Parts)
    ensures
        parts_tree(parts) == promql_node(node),
{
    match node {
        promql::Node::Operator { x, y, .. } => Parts::Operator { left: *x, right: *y },
        promql::Node::Vector(v) => Parts::Vector {
            matchers: v.labels.into_iter().map(|l| Matcher { name: l.name, value: l.value }).collect(),
        },
        promql::Node::Scalar(_) => Parts::Scalar,
        promql::Node::String(_) => Parts::String,
        promql::Node::Function { args, .. } => Parts::Function { args },
        promql::Node::Negation(x) => Parts::Negation { child: *x },
    }
}

/// Builds the expression tree of a node of the `promql` crate.
fn lift(node: promql::Node) -> (expr: Expr)
    ensures
        expr@ == promql_node(node),
    decreases tree_size(promql_node(node)),
{
    let ghost tree = promql_node(node);
    match take_apart(node) {
        Parts::Operator { left, right } => {
            assert(tree == (ExprView::Operator {
                left: Box::new(promql_node(left)),
                right: Box::new(promql_node(right)),
            }));
            Expr::Operator { left: Box::new(lift(left)), right: Box::new(lift(right)) }
        },
        Parts::Vector { matchers } => Expr::Vector { matchers },
        Parts::Scalar => Expr::Scalar,
        Parts::String => Expr::String,
        Parts::Function { args } => {
            let ghost trees = promql_nodes(args@);
            let mut lifted: Vec<Expr> = Vec::new();
            assert(forest_view(lifted@) =~= trees.take(0));
            for arg in iter: args
                invariant
                    trees == promql_nodes(iter.seq()),
                    tree == promql_node(node),
                    tree == (ExprView::Function { args: trees }),
                    forest_view(lifted@) == trees.take(iter.index()),
            {
                let ghost before = forest_view(lifted@);
                proof {
                    lemma_forest_size_index(trees, iter.index());
                    assert(trees[iter.index()] == promql_node(arg));
                }
                lifted.push(lift(arg));
                proof {
                    assert(forest_view(lifted@) =~= before.push(promql_node(arg)));
                    assert(trees.take(iter.index() + 1) =~= trees.take(iter.index()).push(
                        trees[iter.index()],
                    ));
                }
            }
            let expr = Expr::Function { args: lifted };
            proof {
                assert(trees.take(trees.len() as int) =~= trees);
                assert(expr@->Function_args =~= forest_view(lifted@));
            }
            expr
        },
        Parts::Negation { child } => {
            assert(tree == (ExprView::Negation { child: Box::new(promql_node(child)) }));
            Expr::Negation { child: Box::new(lift(child)) }
        },
    }
}

/// Parses a query into its tree. A text with a duration that the parser
/// cannot hold is refused before the parser sees it.
pub fn parse_query(query: &[u8]) -> (r: Result<Expr, QueryError>)
    ensures
        match r {
            Ok(expr) => query_tree(query@) == Ok::<ExprView, QueryError>(expr@),
            Err(error) => query_tree(query@) == Err::<ExprView, QueryError>(error),
        },
{
    if !check_durations(query) {
        return Err(QueryError::DurationOutOfRange);
    }
    match parse_expression(query, false) {
        Some(node) => Ok(lift(node)),
        None => Err(QueryError::Syntax),
    }
}

} // verus!
