//! The expression tree of a query and the metric names it reads.

use vstd::prelude::*;

verus! {

/// A label matcher of a selector, such as `env="production"`.
#[derive(Debug, Clone, PartialEq)]
pub struct Matcher {
    pub name: String,
    pub value: String,
}

/// A parsed query expression, reduced to what dependency extraction reads:
/// the shape of the tree and the label matchers of its selectors.
#[derive(Debug, PartialEq)]
pub enum Expr {
    /// A binary operation.
    Operator { left: Box<Expr>, right: Box<Expr> },
    /// A metric selector with its label matchers.
    Vector { matchers: Vec<Matcher> },
    /// A numeric literal.
    Scalar,
    /// A string literal.
    String,
    /// A function call or an aggregation.
    Function { args: Vec<Expr> },
    /// A unary negation.
    Negation { child: Box<Expr> },
}

/// The mathematical value of a [`Matcher`].
pub struct MatcherView {
    pub name: Seq<char>,
    pub value: Seq<char>,
}

/// The mathematical value of an [`Expr`].
pub enum ExprView {
    Operator { left: Box<ExprView>, right: Box<ExprView> },
    Vector { matchers: Seq<MatcherView> },
    Scalar,
    String,
    Function { args: Seq<ExprView> },
    Negation { child: Box<ExprView> },
}

impl View for Matcher {
    type V = MatcherView;

    open spec fn view(&self) -> MatcherView {
        MatcherView { name: self.name@, value: self.value@ }
    }
}

/// The value of a tree: the values of its parts, in the same shape.
pub open spec fn tree_view(n: Expr) -> ExprView
    decreases n,
{
    match n {
        Expr::Operator { left, right } => ExprView::Operator {
            left: Box::new(tree_view(*left)),
            right: Box::new(tree_view(*right)),
        },
        Expr::Vector { matchers } => ExprView::Vector {
            matchers: matchers@.map_values(|m: Matcher| m@),
        },
        Expr::Scalar => ExprView::Scalar,
        Expr::String => ExprView::String,
        Expr::Function { args } => ExprView::Function {
            args: Seq::new(
                args@.len(),
                |i: int|
                    if 0 <= i < args@.len() {
                        tree_view(args@[i])
                    } else {
                        arbitrary()
                    },
            ),
        },
        Expr::Negation { child } => ExprView::Negation { child: Box::new(tree_view(*child)) },
    }
}

impl View for Expr {
    type V = ExprView;

    open spec fn view(&self) -> ExprView {
        tree_view(*self)
    }
}

/// The values of a sequence of trees, in the same order.
pub open spec fn forest_view(trees: Seq<Expr>) -> Seq<ExprView> {
    trees.map_values(|n: Expr| n@)
}

/// The values of a sequence of strings, in the same order.
pub open spec fn names_view(names: Seq<String>) -> Seq<Seq<char>> {
    names.map_values(|s: String| s@)
}

/// The reserved label whose matcher gives the metric that a selector reads.
pub open spec fn name_label() -> Seq<char> {
    "__name__"@
}

/// The test for a matcher on the reserved label.
pub open spec fn on_name_label() -> spec_fn(MatcherView) -> bool {
    |m: MatcherView| m.name == name_label()
}

/// The map from a matcher to its value.
pub open spec fn matcher_value() -> spec_fn(MatcherView) -> Seq<char> {
    |m: MatcherView| m.value
}

/// The metric names of one selector: the value of each matcher on the
/// reserved label, in the order of the matchers.
pub open spec fn selector_names(matchers: Seq<MatcherView>) -> Seq<Seq<char>> {
    matchers.filter(on_name_label()).map_values(matcher_value())
}

/// The metric names that a tree reads, each as often as a selector names
/// it, later operands and arguments first.
pub open spec fn metric_names(tree: ExprView) -> Seq<Seq<char>>
    decreases tree,
{
    match tree {
        ExprView::Operator { left, right } => metric_names(*right) + metric_names(*left),
        ExprView::Vector { matchers } => selector_names(matchers),
        ExprView::Scalar => Seq::empty(),
        ExprView::String => Seq::empty(),
        ExprView::Function { args } => forest_names(args),
        ExprView::Negation { child } => metric_names(*child),
    }
}

/// The metric names that a sequence of trees reads, the last tree first.
pub open spec fn forest_names(trees: Seq<ExprView>) -> Seq<Seq<char>>
    decreases trees,
{
    if trees.len() == 0 {
        Seq::empty()
    } else {
        metric_names(trees.last()) + forest_names(trees.drop_last())
    }
}

/// The number of nodes of a tree.
pub open spec fn tree_size(tree: ExprView) -> nat
    decreases tree,
{
    match tree {
        ExprView::Operator { left, right } => 1 + tree_size(*left) + tree_size(*right),
        ExprView::Vector { matchers } => 1,
        ExprView::Scalar => 1,
        ExprView::String => 1,
        ExprView::Function { args } => 1 + forest_size(args),
        ExprView::Negation { child } => 1 + tree_size(*child),
    }
}

/// The number of nodes of a sequence of trees.
pub open spec fn forest_size(trees: Seq<ExprView>) -> nat
    decreases trees,
{
    if trees.len() == 0 {
        0
    } else {
        tree_size(trees.last()) + forest_size(trees.drop_last())
    }
}

/// A tree put last is read first.
pub proof fn lemma_forest_names_push(trees: Seq<ExprView>, tree: ExprView)
    ensures
        forest_names(trees.push(tree)) == metric_names(tree) + forest_names(trees),
{
    assert(trees.push(tree).drop_last() =~= trees);
    assert(trees.push(tree).last() == tree);
}

/// A tree put last adds its size.
pub proof fn lemma_forest_size_push(trees: Seq<ExprView>, tree: ExprView)
    ensures
        forest_size(trees.push(tree)) == tree_size(tree) + forest_size(trees),
{
    assert(trees.push(tree).drop_last() =~= trees);
    assert(trees.push(tree).last() == tree);
}

/// A sequence of trees is at least as large as each of its trees.
pub proof fn lemma_forest_size_index(trees: Seq<ExprView>, i: int)
    requires
        0 <= i < trees.len(),
    ensures
        tree_size(trees[i]) <= forest_size(trees),
    decreases trees.len(),
{
    if i < trees.len() - 1 {
        lemma_forest_size_index(trees.drop_last(), i);
    }
}

/// The names of two sequences of trees joined are the names of the second
/// followed by the names of the first.
pub proof fn lemma_forest_names_concat(a: Seq<ExprView>, b: Seq<ExprView>)
    ensures
        forest_names(a + b) == forest_names(b) + forest_names(a),
    decreases b.len(),
{
    if b.len() == 0 {
        assert(a + b =~= a);
    } else {
        lemma_forest_names_concat(a, b.drop_last());
        assert((a + b).drop_last() =~= a + b.drop_last());
        assert((a + b).last() == b.last());
    }
}

/// The size of two sequences of trees joined is the sum of their sizes.
pub proof fn lemma_forest_size_concat(a: Seq<ExprView>, b: Seq<ExprView>)
    ensures
        forest_size(a + b) == forest_size(a) + forest_size(b),
    decreases b.len(),
{
    if b.len() == 0 {
        assert(a + b =~= a);
    } else {
        lemma_forest_size_concat(a, b.drop_last());
        assert((a + b).drop_last() =~= a + b.drop_last());
        assert((a + b).last() == b.last());
    }
}

/// The test for the string `name`.
pub open spec fn is_name(name: Seq<char>) -> spec_fn(Seq<char>) -> bool {
    |n: Seq<char>| n == name
}

/// The test for a matcher on the reserved label with the value `name`.
pub open spec fn names_metric(name: Seq<char>) -> spec_fn(MatcherView) -> bool {
    |m: MatcherView| m.name == name_label() && m.value == name
}

/// How often `name` occurs in `names`.
pub open spec fn count_of(names: Seq<Seq<char>>, name: Seq<char>) -> nat {
    names.filter(is_name(name)).len()
}

/// How many matchers of a selector are on the reserved label and have the
/// value `name`.
pub open spec fn selector_reads(matchers: Seq<MatcherView>, name: Seq<char>) -> nat {
    matchers.filter(names_metric(name)).len()
}

/// How many matchers in the selectors of a tree are on the reserved label
/// and have the value `name`.
pub open spec fn tree_reads(tree: ExprView, name: Seq<char>) -> nat
    decreases tree,
{
    match tree {
        ExprView::Operator { left, right } => tree_reads(*left, name) + tree_reads(*right, name),
        ExprView::Vector { matchers } => selector_reads(matchers, name),
        ExprView::Scalar => 0,
        ExprView::String => 0,
        ExprView::Function { args } => forest_reads(args, name),
        ExprView::Negation { child } => tree_reads(*child, name),
    }
}

/// The sum of [`tree_reads`] over a sequence of trees.
pub open spec fn forest_reads(trees: Seq<ExprView>, name: Seq<char>) -> nat
    decreases trees,
{
    if trees.len() == 0 {
        0
    } else {
        tree_reads(trees.last(), name) + forest_reads(trees.drop_last(), name)
    }
}

/// Whether a tree holds no selector: all its leaves are literals.
pub open spec fn only_literals(tree: ExprView) -> bool
    decreases tree,
{
    match tree {
        ExprView::Operator { left, right } => only_literals(*left) && only_literals(*right),
        ExprView::Vector { matchers } => false,
        ExprView::Scalar => true,
        ExprView::String => true,
        ExprView::Function { args } => forall|i: int|
            0 <= i < args.len() ==> only_literals(#[trigger] args[i]),
        ExprView::Negation { child } => only_literals(*child),
    }
}

/// Counting a name in two sequences joined is counting it in each.
pub proof fn lemma_count_of_concat(a: Seq<Seq<char>>, b: Seq<Seq<char>>, name: Seq<char>)
    ensures
        count_of(a + b, name) == count_of(a, name) + count_of(b, name),
{
    Seq::filter_distributes_over_add(a, b, is_name(name));
}

/// A selector yields a name once for each of its matchers on the reserved
/// label that has this name as its value.
pub proof fn lemma_selector_names_count(matchers: Seq<MatcherView>, name: Seq<char>)
    ensures
        count_of(selector_names(matchers), name) == selector_reads(matchers, name),
    decreases matchers.len(),
{
    let same = is_name(name);
    let is_name = on_name_label();
    let value_of = matcher_value();
    let reads = names_metric(name);
    if matchers.len() == 0 {
        assert(matchers.filter(is_name) =~= Seq::<MatcherView>::empty());
        assert(matchers.filter(reads) =~= Seq::<MatcherView>::empty());
        assert(selector_names(matchers) =~= Seq::<Seq<char>>::empty());
        assert(selector_names(matchers).filter(same) =~= Seq::<Seq<char>>::empty());
    } else {
        let front = matchers.drop_last();
        let last = matchers.last();
        lemma_selector_names_count(front, name);
        assert(matchers =~= front.push(last));
        front.lemma_filter_push(last, is_name);
        front.lemma_filter_push(last, reads);
        if last.name == name_label() {
            assert(front.filter(is_name).push(last).map_values(value_of) =~= front.filter(
                is_name,
            ).map_values(value_of).push(last.value));
            assert(selector_names(matchers) == selector_names(front).push(last.value));
            selector_names(front).lemma_filter_push(last.value, same);
            if last.value == name {
                assert(matchers.filter(reads) == front.filter(reads).push(last));
            } else {
                assert(matchers.filter(reads) == front.filter(reads));
            }
        } else {
            assert(selector_names(matchers) == selector_names(front));
            assert(matchers.filter(reads) == front.filter(reads));
        }
    }
}

/// A selector without a matcher on the reserved label yields no name.
pub proof fn lemma_selector_without_name(matchers: Seq<MatcherView>)
    requires
        forall|i: int| 0 <= i < matchers.len() ==> (#[trigger] matchers[i]).name != name_label(),
    ensures
        selector_names(matchers) == Seq::<Seq<char>>::empty(),
        metric_names(ExprView::Vector { matchers }) == Seq::<Seq<char>>::empty(),
    decreases matchers.len(),
{
    let is_name = on_name_label();
    if matchers.len() == 0 {
        assert(matchers.filter(is_name) =~= Seq::<MatcherView>::empty());
        assert(selector_names(matchers) =~= Seq::<Seq<char>>::empty());
    } else {
        let front = matchers.drop_last();
        lemma_selector_without_name(front);
        assert(matchers =~= front.push(matchers.last()));
        front.lemma_filter_push(matchers.last(), is_name);
        assert(front.filter(is_name) =~= Seq::<MatcherView>::empty()) by {
            if front.filter(is_name).len() > 0 {
                assert(selector_names(front).len() == front.filter(is_name).len());
            }
        }
        assert(selector_names(matchers) =~= Seq::<Seq<char>>::empty());
    }
}

/// A tree whose leaves are all literals reads no metric.
pub proof fn lemma_only_literals_no_names(tree: ExprView)
    requires
        only_literals(tree),
    ensures
        metric_names(tree) == Seq::<Seq<char>>::empty(),
    decreases tree,
{
    match tree {
        ExprView::Operator { left, right } => {
            lemma_only_literals_no_names(*left);
            lemma_only_literals_no_names(*right);
        },
        ExprView::Function { args } => {
            lemma_only_literals_forest(args);
        },
        ExprView::Negation { child } => {
            lemma_only_literals_no_names(*child);
        },
        _ => {},
    }
}

/// A sequence of trees whose leaves are all literals reads no metric.
pub proof fn lemma_only_literals_forest(trees: Seq<ExprView>)
    requires
        forall|i: int| 0 <= i < trees.len() ==> only_literals(#[trigger] trees[i]),
    ensures
        forest_names(trees) == Seq::<Seq<char>>::empty(),
    decreases trees,
{
    if trees.len() > 0 {
        lemma_only_literals_no_names(trees.last());
        lemma_only_literals_forest(trees.drop_last());
    }
}

/// The walk is complete and exact: a name comes out once for each matcher
/// on the reserved label, anywhere in the tree, that has it as its value.
pub proof fn lemma_metric_names_count(tree: ExprView, name: Seq<char>)
    ensures
        count_of(metric_names(tree), name) == tree_reads(tree, name),
    decreases tree,
{
    match tree {
        ExprView::Operator { left, right } => {
            lemma_metric_names_count(*left, name);
            lemma_metric_names_count(*right, name);
            lemma_count_of_concat(metric_names(*right), metric_names(*left), name);
        },
        ExprView::Vector { matchers } => {
            lemma_selector_names_count(matchers, name);
        },
        ExprView::Function { args } => {
            lemma_forest_names_count(args, name);
        },
        ExprView::Negation { child } => {
            lemma_metric_names_count(*child, name);
        },
        _ => {},
    }
}

/// [`lemma_metric_names_count`] for a sequence of trees.
pub proof fn lemma_forest_names_count(trees: Seq<ExprView>, name: Seq<char>)
    ensures
        count_of(forest_names(trees), name) == forest_reads(trees, name),
    decreases trees,
{
    if trees.len() > 0 {
        lemma_metric_names_count(trees.last(), name);
        lemma_forest_names_count(trees.drop_last(), name);
        lemma_count_of_concat(metric_names(trees.last()), forest_names(trees.drop_last()), name);
    }
}

} // verus!
