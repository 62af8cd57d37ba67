//! Logical plans, as far as the semantic rules read them.
//!
//! A plan is an operator over expressions and input plans. The operators that
//! the rules know are told apart; every other one is opaque, by a number that
//! whoever built the tree gave it.

use vstd::prelude::*;

use crate::logical::expr::{expr_views, Expr, ExprView};
use crate::text::views;

verus! {

/// What kind of operator it is, with everything that is no expression and no
/// input.
#[derive(Debug)]
pub enum Op {
    Projection,
    Filter,
    /// The first so many expressions are grouped by, the others are aggregates.
    Aggregate { groups: usize },
    /// A sort, with the limit that was folded into it.
    Sort { fetch: Option<usize> },
    /// A limit: its number where it is a literal, and its offset.
    Limit { fetch: Option<usize>, skip: usize },
    /// The first so many expressions are those of `DISTINCT ON`.
    DistinctOn { on: usize },
    /// `text MEANS 'condition'` over its first expression; the recall floor is
    /// given by its bits.
    SemFilter { condition: String, recall: Option<u64> },
    /// One boolean column per condition, over the text that is its first
    /// expression; the second, where there is one, is the guard.
    SemClassify { conditions: Vec<String>, guarded: bool, id: usize },
    /// A relevance score for the text that is its expression.
    SemRank { query: String, limit: usize, id: usize },
    /// The label of the group of the text that is its expression.
    SemCluster { k: Option<u64>, id: usize },
    /// The duplicate key of the text that is its expression; the similarity is
    /// given by the bits of a single-precision number.
    SemDistinct { similarity: u32, id: usize },
    /// Some fields extracted from the text that is its expression: those of a
    /// named type, or one whose type and doc line stand in the query.
    SemExtract { target: String, fields: Vec<String>, inline: Option<Inline>, id: usize },
    /// Any other operator.
    Opaque(u64),
}

/// The type and the doc line of a field that stands in the query.
#[derive(Debug)]
pub struct Inline {
    pub spec: String,
    pub doc: String,
}

/// What an [`Inline`] stands for.
pub struct InlineView {
    pub spec: Seq<char>,
    pub doc: Seq<char>,
}

impl View for Inline {
    type V = InlineView;

    open spec fn view(&self) -> InlineView {
        InlineView { spec: self.spec@, doc: self.doc@ }
    }
}

/// The view of an optional inline field.
pub open spec fn opt_inline(i: Option<Inline>) -> Option<InlineView> {
    match i {
        Some(i) => Some(i@),
        None => None,
    }
}

/// A logical plan.
#[derive(Debug)]
pub struct Plan {
    pub op: Op,
    pub exprs: Vec<Expr>,
    pub inputs: Vec<Plan>,
}

/// What an [`Op`] stands for.
pub enum OpView {
    Projection,
    Filter,
    Aggregate { groups: nat },
    Sort { fetch: Option<usize> },
    Limit { fetch: Option<usize>, skip: usize },
    DistinctOn { on: nat },
    SemFilter { condition: Seq<char>, recall: Option<u64> },
    SemClassify { conditions: Seq<Seq<char>>, guarded: bool, id: nat },
    SemRank { query: Seq<char>, limit: nat, id: nat },
    SemCluster { k: Option<u64>, id: nat },
    SemDistinct { similarity: u32, id: nat },
    SemExtract {
        target: Seq<char>,
        fields: Seq<Seq<char>>,
        inline: Option<InlineView>,
        id: nat,
    },
    Opaque(u64),
}

/// What a [`Plan`] stands for.
pub struct PlanView {
    pub op: OpView,
    pub exprs: Seq<ExprView>,
    pub inputs: Seq<PlanView>,
}

impl View for Op {
    type V = OpView;

    open spec fn view(&self) -> OpView {
        match *self {
            Op::Projection => OpView::Projection,
            Op::Filter => OpView::Filter,
            Op::Aggregate { groups } => OpView::Aggregate { groups: groups as nat },
            Op::Sort { fetch } => OpView::Sort { fetch },
            Op::Limit { fetch, skip } => OpView::Limit { fetch, skip },
            Op::DistinctOn { on } => OpView::DistinctOn { on: on as nat },
            Op::SemFilter { condition, recall } => OpView::SemFilter {
                condition: condition@,
                recall,
            },
            Op::SemClassify { conditions, guarded, id } => OpView::SemClassify {
                conditions: views(conditions@),
                guarded,
                id: id as nat,
            },
            Op::SemRank { query, limit, id } => OpView::SemRank {
                query: query@,
                limit: limit as nat,
                id: id as nat,
            },
            Op::SemCluster { k, id } => OpView::SemCluster { k, id: id as nat },
            Op::SemDistinct { similarity, id } => OpView::SemDistinct { similarity, id: id as nat },
            Op::SemExtract { target, fields, inline, id } => OpView::SemExtract {
                target: target@,
                fields: views(fields@),
                inline: opt_inline(inline),
                id: id as nat,
            },
            Op::Opaque(id) => OpView::Opaque(id),
        }
    }
}

pub open spec fn plan_view(p: Plan) -> PlanView
    decreases p, 0nat,
{
    PlanView { op: p.op@, exprs: expr_views(p.exprs@), inputs: plan_views(p.inputs@) }
}

/// The views of some plans.
pub open spec fn plan_views(inputs: Seq<Plan>) -> Seq<PlanView>
    decreases inputs, 1nat,
{
    Seq::new(
        inputs.len(),
        |i: int|
            if 0 <= i < inputs.len() {
                plan_view(inputs[i])
            } else {
                arbitrary()
            },
    )
}

impl View for Plan {
    type V = PlanView;

    open spec fn view(&self) -> PlanView {
        plan_view(*self)
    }
}

/// Why a plan is refused.
#[derive(Debug)]
pub enum PlanError {
    /// The message.
    Plan(String),
    /// The message of a fault of the planner itself.
    Internal(String),
    /// The message, which ends in the expression as users read it.
    Got(String, Expr),
    /// The message around the operator as users read it.
    Around(String, String),
}

/// What a [`PlanError`] says.
pub enum PlanErrorView {
    Plan(Seq<char>),
    Internal(Seq<char>),
    Got(Seq<char>, ExprView),
    Around(Seq<char>, Seq<char>),
}

impl View for PlanError {
    type V = PlanErrorView;

    open spec fn view(&self) -> PlanErrorView {
        match *self {
            PlanError::Plan(s) => PlanErrorView::Plan(s@),
            PlanError::Internal(s) => PlanErrorView::Internal(s@),
            PlanError::Got(s, e) => PlanErrorView::Got(s@, e@),
            PlanError::Around(s, t) => PlanErrorView::Around(s@, t@),
        }
    }
}

/// A plan after a rule has seen it, and whether the rule changed it.
#[derive(Debug)]
pub struct Transformed {
    pub plan: Plan,
    pub changed: bool,
}

/// What a rule makes of a plan.
pub enum Outcome {
    Unchanged,
    Changed(PlanView),
    Refused(PlanErrorView),
}

/// A rule's result says what it made of a plan.
pub open spec fn tells(r: Result<Transformed, PlanError>, plan: PlanView, o: Outcome) -> bool {
    match o {
        Outcome::Unchanged => r is Ok && !r->Ok_0.changed && r->Ok_0.plan@ == plan,
        Outcome::Changed(p) => r is Ok && r->Ok_0.changed && r->Ok_0.plan@ == p,
        Outcome::Refused(e) => r is Err && r->Err_0@ == e,
    }
}

/// A node has the input, and the expressions, that its operator speaks of.
pub open spec fn node_formed(p: PlanView) -> bool {
    match p.op {
        OpView::Projection | OpView::Filter | OpView::Sort { .. } => p.inputs.len() == 1,
        OpView::Aggregate { groups } => p.inputs.len() == 1 && groups <= p.exprs.len(),
        OpView::DistinctOn { on } => p.inputs.len() == 1 && on <= p.exprs.len(),
        _ => true,
    }
}

/// Every node of a plan is formed.
pub open spec fn formed(p: PlanView) -> bool
    decreases p,
{
    node_formed(p) && all_formed(p.inputs)
}

/// Every node of some plans is formed.
pub open spec fn all_formed(inputs: Seq<PlanView>) -> bool
    decreases inputs,
{
    inputs.len() == 0 || (all_formed(inputs.drop_last()) && formed(inputs.last()))
}

pub proof fn lemma_all_formed(inputs: Seq<PlanView>, i: int)
    requires
        all_formed(inputs),
        0 <= i < inputs.len(),
    ensures
        formed(inputs[i]),
    decreases inputs.len(),
{
    if i < inputs.len() - 1 {
        lemma_all_formed(inputs.drop_last(), i);
    }
}

}
