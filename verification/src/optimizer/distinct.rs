//! Turns `semantic_key()` markers into dedupe nodes.
//!
//! Whether a row is a duplicate is a fact about the rows around it, so the
//! marker cannot be evaluated where it is written. The rule puts a node that
//! materializes the group key below whatever holds the marker, and swaps the
//! marker for a reference to that column. The deduplication itself stays the
//! engine's.
//!
//! `DISTINCT ON` may already have been lowered into an aggregate when the rule
//! runs, so both shapes are handled.

use vstd::prelude::*;

use crate::logical::plan::{
    node_formed, tells, Op, OpView, Outcome, Plan, PlanError, PlanErrorView, PlanView, Transformed,
};
use crate::optimizer::attach::{
    attach_plan, attached_plan, lemma_plan_attached, number_literal, plan_has_bare,
};
use crate::optimizer::markers::{
    rewriting_keeps_the_node, Kind, Naming, SEMANTIC_KEY_UDF_NAME,
};

verus! {

pub const NOT_A_DISTINCT_KEY: &'static str =
    "semantic_key() is supported in a DISTINCT ON list or a SELECT list; it cannot appear in a WHERE clause, a JOIN condition, or an aggregate \u{2014} wrap it in a subquery to filter on a duplicate key";

pub const NO_SEMANTIC_DISTINCT: &'static str =
    "WITH SIMILARITY requires a SEMANTIC DISTINCT ON in the statement";

/// Turns `semantic_key()` markers into dedupe nodes below whatever holds them.
#[derive(Debug)]
pub struct DistinctRewriteRule;

/// What the rule makes of a plan node.
pub open spec fn distinct_outcome(plan: PlanView) -> Outcome {
    match plan.op {
        OpView::Aggregate { groups } => Kind::SemanticKey.aggregate_outcome(
            plan,
            groups,
            NOT_A_DISTINCT_KEY@,
        ),
        OpView::DistinctOn { on } => Kind::SemanticKey.held_outcome(plan, on, Naming::Free),
        OpView::Projection => Kind::SemanticKey.held_outcome(plan, plan.exprs.len(), Naming::Kept),
        _ => Kind::SemanticKey.other_outcome(plan, NOT_A_DISTINCT_KEY@),
    }
}

impl DistinctRewriteRule {
    /// The name that the optimizer logs the rule under.
    pub fn name(&self) -> (r: &'static str)
        ensures
            r@ == "semcast_distinct_rewrite"@,
    {
        "semcast_distinct_rewrite"
    }

    /// Rewrites one node of a plan, its inputs having been rewritten before.
    pub fn rewrite(&self, plan: Plan) -> (r: Result<Transformed, PlanError>)
        requires
            node_formed(plan@),
        ensures
            tells(r, plan@, distinct_outcome(plan@)),
    {
        assert(plan@.inputs.len() == plan.inputs@.len());
        assert(plan@.exprs.len() == plan.exprs@.len());
        let n: usize = plan.exprs.len();
        match &plan.op {
            Op::Aggregate { groups } => {
                let groups: usize = *groups;
                Kind::SemanticKey.rewrite_aggregate(plan, groups, NOT_A_DISTINCT_KEY)
            },
            Op::DistinctOn { on } => {
                let on: usize = *on;
                Kind::SemanticKey.rewrite_held(plan, on, Naming::Free)
            },
            Op::Projection => Kind::SemanticKey.rewrite_held(plan, n, Naming::Kept),
            _ => Kind::SemanticKey.rewrite_other(plan, NOT_A_DISTINCT_KEY),
        }
    }
}

/// Attaches a statement's `WITH SIMILARITY` to every `semantic_key()` call in
/// the plan, as a second literal argument that the rewrite reads back out. No
/// call at all is a user's mistake. The similarity is given by its bits, and by
/// those of the nearest single-precision number.
pub fn apply_similarity(plan: Plan, double: u64, single: u32) -> (r: Result<Plan, PlanError>)
    ensures
        match r {
            Ok(p) => plan_has_bare(plan@, SEMANTIC_KEY_UDF_NAME@, 1) && p@ == attached_plan(
                plan@,
                SEMANTIC_KEY_UDF_NAME@,
                1,
                number_literal(double, single),
            ),
            Err(e) => !plan_has_bare(plan@, SEMANTIC_KEY_UDF_NAME@, 1) && e@ == PlanErrorView::Plan(NO_SEMANTIC_DISTINCT@),
        },
{
    let (plan, found) = attach_plan(plan, SEMANTIC_KEY_UDF_NAME, 1, double, single);
    if found {
        Ok(plan)
    } else {
        Err(PlanError::Plan(NO_SEMANTIC_DISTINCT.to_owned()))
    }
}

/// Once a similarity is attached, no `semantic_key()` call is without one.
pub proof fn every_call_has_a_similarity(p: PlanView, double: u64, single: u32)
    ensures
        !plan_has_bare(
            attached_plan(p, SEMANTIC_KEY_UDF_NAME@, 1, number_literal(double, single)),
            SEMANTIC_KEY_UDF_NAME@,
            1,
        ),
{
    lemma_plan_attached(p, SEMANTIC_KEY_UDF_NAME@, 1, double, single);
}

/// No marker is left unplanned: a node that the rule leaves as it is holds none where
/// it may hold one, and a node that may hold none is refused with one.
pub proof fn no_dedupe_is_left_unplanned(plan: PlanView)
    requires
        plan.op matches OpView::Aggregate { groups } ==> groups <= plan.exprs.len(),
        plan.op matches OpView::DistinctOn { on } ==> on <= plan.exprs.len(),
    ensures
        distinct_outcome(plan) is Unchanged ==> match plan.op {
            OpView::Aggregate { groups } => !Kind::SemanticKey.occurs_in(
                plan.exprs.subrange(0, groups as int),
            ) && !Kind::SemanticKey.occurs_in(
                plan.exprs.subrange(groups as int, plan.exprs.len() as int),
            ),
            OpView::DistinctOn { on } => !Kind::SemanticKey.occurs_in(
                plan.exprs.subrange(0, on as int),
            ),
            _ => !Kind::SemanticKey.occurs_in(plan.exprs),
        },
        distinct_outcome(plan) is Changed ==> plan.op is Aggregate || plan.op is DistinctOn
            || plan.op is Projection,
        distinct_outcome(plan) is Changed ==> distinct_outcome(plan)->Changed_0.op == plan.op
            && distinct_outcome(plan)->Changed_0.exprs.len() == plan.exprs.len(),
{
    assert(plan.exprs.subrange(0, plan.exprs.len() as int) =~= plan.exprs);
    if distinct_outcome(plan) is Changed {
        match plan.op {
            OpView::Aggregate { groups } => rewriting_keeps_the_node(
                Kind::SemanticKey,
                plan,
                groups,
                Naming::KeptWhereMarked,
                0,
                0,
            ),
            OpView::DistinctOn { on } => rewriting_keeps_the_node(
                Kind::SemanticKey,
                plan,
                on,
                Naming::Free,
                0,
                0,
            ),
            _ => rewriting_keeps_the_node(
                Kind::SemanticKey,
                plan,
                plan.exprs.len(),
                Naming::Kept,
                0,
                0,
            ),
        }
    }
}

}
