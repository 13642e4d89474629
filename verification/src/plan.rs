//! Query plans, as the query planner hands them to the executor.
use vstd::prelude::*;

verus! {

/// A plan for answering one operation; a plan without a node has nothing to fetch.
pub struct QueryPlan {
    pub node: Option<PlanNode>,
}

/// One step of a plan.
pub enum PlanNode {
    /// The nodes run one after the other.
    Sequence { nodes: Vec<PlanNode> },
    /// The nodes run side by side.
    Parallel { nodes: Vec<PlanNode> },
    /// An operation sent to one service.
    Fetch(FetchNode),
    /// A node run on the values found at a path of the results.
    Flatten(FlattenNode),
}

/// An operation sent to one service.
pub struct FetchNode {
    pub service_name: String,
    pub variable_usages: Vec<String>,
    /// The fields of each entity that the service needs to resolve it.
    pub requires: Option<Vec<Selection>>,
    pub operation: String,
}

/// A node run on the values found at a path of the results.
pub struct FlattenNode {
    pub path: Vec<String>,
    pub node: Box<PlanNode>,
}

/// One entry of a selection set.
pub enum Selection {
    Field(Field),
    InlineFragment(InlineFragment),
}

/// A selected field, under its alias if it has one.
pub struct Field {
    pub alias: Option<String>,
    pub name: String,
    pub selections: Option<Vec<Selection>>,
}

/// Selections that apply only to values of one type.
pub struct InlineFragment {
    pub type_condition: Option<String>,
    pub selections: Vec<Selection>,
}

} // verus!
