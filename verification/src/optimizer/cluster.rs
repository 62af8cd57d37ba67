//! Turns `meaning_of()` markers into cluster nodes.
//!
//! Which group a row belongs to is a fact about the whole relation, so the
//! marker cannot be evaluated where it is written. The rule puts a node that
//! materializes the label below the aggregate (or projection) that holds the
//! marker, and swaps the marker for a reference to that column. `GROUP BY` then
//! groups by an ordinary column.
//!
//! The one subtlety is the name. Replacing a group expression changes the
//! aggregate's output field name, which anything above it refers to. So the
//! replacement goes on under the name that the marker had.

use vstd::prelude::*;

use crate::logical::plan::{
    node_formed, tells, Op, OpView, Outcome, Plan, PlanError, PlanView, Transformed,
};
use crate::optimizer::markers::{rewriting_keeps_the_node, Kind, Naming};

verus! {

pub const NOT_A_GROUP_KEY: &'static str =
    "MEANING OF is supported as a GROUP BY key or in a SELECT list; it cannot appear in an aggregate, a WHERE clause, or a JOIN condition \u{2014} wrap it in a subquery to filter on a group label";

/// Turns `meaning_of()` markers into cluster nodes below the aggregate or
/// projection that holds them.
#[derive(Debug)]
pub struct ClusterRewriteRule;

/// What the rule makes of a plan node.
pub open spec fn cluster_outcome(plan: PlanView) -> Outcome {
    match plan.op {
        OpView::Aggregate { groups } => Kind::MeaningOf.aggregate_outcome(
            plan,
            groups,
            NOT_A_GROUP_KEY@,
        ),
        OpView::Projection => Kind::MeaningOf.held_outcome(plan, plan.exprs.len(), Naming::Kept),
        _ => Kind::MeaningOf.other_outcome(plan, NOT_A_GROUP_KEY@),
    }
}

impl ClusterRewriteRule {
    /// The name that the optimizer logs the rule under.
    pub fn name(&self) -> (r: &'static str)
        ensures
            r@ == "semcast_cluster_rewrite"@,
    {
        "semcast_cluster_rewrite"
    }

    /// Rewrites one node of a plan, its inputs having been rewritten before.
    pub fn rewrite(&self, plan: Plan) -> (r: Result<Transformed, PlanError>)
        requires
            node_formed(plan@),
        ensures
            tells(r, plan@, cluster_outcome(plan@)),
    {
        assert(plan@.inputs.len() == plan.inputs@.len());
        assert(plan@.exprs.len() == plan.exprs@.len());
        let n: usize = plan.exprs.len();
        match &plan.op {
            Op::Aggregate { groups } => {
                let groups: usize = *groups;
                Kind::MeaningOf.rewrite_aggregate(plan, groups, NOT_A_GROUP_KEY)
            },
            Op::Projection => Kind::MeaningOf.rewrite_held(plan, n, Naming::Kept),
            _ => Kind::MeaningOf.rewrite_other(plan, NOT_A_GROUP_KEY),
        }
    }
}

/// No marker is left unplanned: a node that the rule leaves as it is holds none, and
/// a node that is neither an aggregate nor a projection is refused with one.
pub proof fn no_grouping_is_left_unplanned(plan: PlanView)
    requires
        plan.op matches OpView::Aggregate { groups } ==> groups <= plan.exprs.len(),
    ensures
        cluster_outcome(plan) is Unchanged ==> match plan.op {
            OpView::Aggregate { groups } => !Kind::MeaningOf.occurs_in(
                plan.exprs.subrange(0, groups as int),
            ) && !Kind::MeaningOf.occurs_in(
                plan.exprs.subrange(groups as int, plan.exprs.len() as int),
            ),
            _ => !Kind::MeaningOf.occurs_in(plan.exprs),
        },
        cluster_outcome(plan) is Changed ==> plan.op is Aggregate || plan.op is Projection,
        cluster_outcome(plan) is Changed ==> cluster_outcome(plan)->Changed_0.op == plan.op
            && cluster_outcome(plan)->Changed_0.exprs.len() == plan.exprs.len(),
{
    assert(plan.exprs.subrange(0, plan.exprs.len() as int) =~= plan.exprs);
    if cluster_outcome(plan) is Changed {
        match plan.op {
            OpView::Aggregate { groups } => rewriting_keeps_the_node(
                Kind::MeaningOf,
                plan,
                groups,
                Naming::KeptWhereMarked,
                0,
                0,
            ),
            _ => rewriting_keeps_the_node(
                Kind::MeaningOf,
                plan,
                plan.exprs.len(),
                Naming::Kept,
                0,
                0,
            ),
        }
    }
}

}
