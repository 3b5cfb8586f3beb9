//! The snapshot of recording rules as the rule source reports it.

use vstd::prelude::*;

verus! {

/// The answer of the rule source.
#[derive(Default, Debug, Clone, PartialEq)]
pub struct Rules {
    pub status: String,
    pub data: Data,
}

/// The rule groups of a snapshot, in the order of the source.
#[derive(Default, Debug, Clone, PartialEq)]
pub struct Data {
    pub groups: Vec<Group>,
}

/// A group of rules, in the order of the source. Its evaluation time is
/// held as the bits of the double that the source reports.
#[derive(Default, Debug, Clone, PartialEq)]
pub struct Group {
    pub name: String,
    pub file: String,
    pub rules: Vec<Rule>,
    pub interval: i64,
    pub limit: i64,
    pub evaluation_time: u64,
    pub last_evaluation: String,
}

/// A recording rule: the metric that it produces, by name, and the query
/// that computes it. Its evaluation time is held as the bits of the double
/// that the source reports.
#[derive(Default, Debug, Clone, PartialEq)]
pub struct Rule {
    pub name: String,
    pub query: String,
    pub health: String,
    pub evaluation_time: u64,
    pub last_evaluation: String,
    pub type_field: String,
}

/// The rules of a sequence of groups, group by group.
pub open spec fn group_rules(groups: Seq<Group>) -> Seq<Rule> {
    groups.flat_map(|group: Group| group.rules@)
}

/// The rules of a snapshot in the order of the source.
pub open spec fn snapshot_rules(snapshot: Rules) -> Seq<Rule> {
    group_rules(snapshot.data.groups@)
}

} // verus!
