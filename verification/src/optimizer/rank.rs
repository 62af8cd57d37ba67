//! Rewrites `relevance(text, 'query')` markers into rank nodes.
//!
//! Ranking is not a filter, so the marker is legal exactly where a value is
//! legal on the way to an ordering: a `SELECT` list or an `ORDER BY`. The rule
//! puts the node below whichever one holds the marker and swaps the marker for
//! a reference to the node's score column.
//!
//! A `LIMIT` is required. Without one, "rank these rows" means one model call
//! per row of the whole table; the limit also sizes the candidate stage.

use vstd::prelude::*;

use crate::logical::expr::ExprView;
use crate::logical::plan::{
    formed, lemma_all_formed, node_formed, plan_views, tells, Op, OpView, Outcome, Plan, PlanError,
    PlanErrorView, PlanView, Transformed,
};
use crate::optimizer::markers::{
    beneath, markers_stand_over_the_input, rewriting_keeps_the_node, Kind, Naming, SettingView,
};

verus! {

pub const NOT_IN_SELECT_OR_ORDER_BY: &'static str =
    "relevance() is only supported in the SELECT list or an ORDER BY; wrap it in a subquery to filter or group on a relevance score";

pub const NO_LIMIT: &'static str =
    "relevance() requires a LIMIT \u{2014} ranking without one means one model call per row of the whole table; add `LIMIT <k>` (the candidate stage is sized from it)";

/// Turns `relevance()` markers into rank nodes below the projection or sort
/// that holds them.
#[derive(Debug)]
pub struct RelevanceRewriteRule;

/// Whether a `relevance()` marker stands anywhere in a plan.
pub open spec fn ranks(p: PlanView) -> bool
    decreases p,
{
    Kind::Relevance.occurs_in(p.exprs) || any_ranks(p.inputs)
}

/// Whether a `relevance()` marker stands anywhere in some plans.
pub open spec fn any_ranks(inputs: Seq<PlanView>) -> bool
    decreases inputs,
{
    inputs.len() > 0 && (any_ranks(inputs.drop_last()) || ranks(inputs.last()))
}

/// The rows that an operator asks for, offset included, where it says.
pub open spec fn own_fetch(op: OpView) -> Option<usize> {
    match op {
        OpView::Limit { fetch: Some(fetch), skip } => Some(
            if fetch + skip <= usize::MAX {
                (fetch + skip) as usize
            } else {
                usize::MAX
            },
        ),
        OpView::Sort { fetch } => fetch,
        _ => None,
    }
}

/// The first limit on the way down from the root, plus its offset.
pub open spec fn first_fetch(p: PlanView) -> Option<usize>
    decreases p,
{
    match own_fetch(p.op) {
        Some(n) => Some(n),
        None => first_fetch_of(p.inputs),
    }
}

/// The first limit on the way down from some plans, one after another.
pub open spec fn first_fetch_of(inputs: Seq<PlanView>) -> Option<usize>
    decreases inputs,
{
    if inputs.len() == 0 {
        None
    } else {
        match first_fetch_of(inputs.drop_last()) {
            Some(n) => Some(n),
            None => first_fetch(inputs.last()),
        }
    }
}

/// What a node becomes once its inputs are ranked, and the next free id.
pub open spec fn ranked_node(node: PlanView, limit: nat, next: nat) -> Result<
    (PlanView, nat),
    PlanErrorView,
> {
    let n = node.exprs.len();
    if !Kind::Relevance.occurs_in(node.exprs) {
        Ok((node, next))
    } else if node.op is Projection || node.op is Sort {
        let naming = if node.op is Projection {
            Naming::Kept
        } else {
            Naming::Free
        };
        match Kind::Relevance.rewritten(node, n, naming, limit, next) {
            Err(err) => Err(err),
            Ok(p) => Ok((p, next + ids_of(node.exprs))),
        }
    } else {
        Err(PlanErrorView::Plan(NOT_IN_SELECT_OR_ORDER_BY@))
    }
}

/// How many nodes the markers of some expressions take.
pub open spec fn ids_of(exprs: Seq<ExprView>) -> nat {
    match Kind::Relevance.groups(exprs.subrange(0, exprs.len() as int)) {
        Ok(groups) => groups.len(),
        Err(_) => 0,
    }
}

/// How many rank nodes a plan takes.
pub open spec fn ids(p: PlanView) -> nat
    decreases p,
{
    ids_all(p.inputs) + ids_of(p.exprs)
}

/// How many rank nodes some plans take.
pub open spec fn ids_all(inputs: Seq<PlanView>) -> nat
    decreases inputs,
{
    if inputs.len() == 0 {
        0
    } else {
        ids_all(inputs.drop_last()) + ids(inputs.last())
    }
}

/// A plan with a rank node for every marker, numbered from the bottom up, and
/// the next free id; or why it is refused.
pub open spec fn ranked(p: PlanView, limit: nat, next: nat) -> Result<
    (PlanView, nat),
    PlanErrorView,
>
    decreases p,
{
    match ranked_all(p.inputs, limit, next) {
        Err(err) => Err(err),
        Ok((inputs, then)) => ranked_node(
            PlanView { op: p.op, exprs: p.exprs, inputs },
            limit,
            then,
        ),
    }
}

/// Some plans, ranked one after another.
pub open spec fn ranked_all(inputs: Seq<PlanView>, limit: nat, next: nat) -> Result<
    (Seq<PlanView>, nat),
    PlanErrorView,
>
    decreases inputs,
{
    if inputs.len() == 0 {
        Ok((Seq::empty(), next))
    } else {
        match ranked_all(inputs.drop_last(), limit, next) {
            Err(err) => Err(err),
            Ok((before, then)) => match ranked(inputs.last(), limit, then) {
                Err(err) => Err(err),
                Ok((p, after)) => Ok((before.push(p), after)),
            },
        }
    }
}

/// What the rule makes of a plan.
pub open spec fn rank_outcome(p: PlanView) -> Outcome {
    if !ranks(p) {
        Outcome::Unchanged
    } else {
        match first_fetch(p) {
            None => Outcome::Refused(PlanErrorView::Plan(NO_LIMIT@)),
            Some(limit) => match ranked(p, limit as nat, 0) {
                Ok((q, _)) => Outcome::Changed(q),
                Err(err) => Outcome::Refused(err),
            },
        }
    }
}

proof fn lemma_any_ranks_prefix(inputs: Seq<PlanView>, n: int)
    requires
        0 <= n <= inputs.len(),
        any_ranks(inputs.take(n)),
    ensures
        any_ranks(inputs),
    decreases inputs.len(),
{
    if n == inputs.len() {
        assert(inputs.take(n) == inputs);
    } else {
        assert(inputs.drop_last().take(n) == inputs.take(n));
        lemma_any_ranks_prefix(inputs.drop_last(), n);
    }
}

proof fn lemma_fetch_prefix(inputs: Seq<PlanView>, n: int)
    requires
        0 <= n <= inputs.len(),
        first_fetch_of(inputs.take(n)) is Some,
    ensures
        first_fetch_of(inputs) == first_fetch_of(inputs.take(n)),
    decreases inputs.len(),
{
    if n == inputs.len() {
        assert(inputs.take(n) == inputs);
    } else {
        assert(inputs.drop_last().take(n) == inputs.take(n));
        lemma_fetch_prefix(inputs.drop_last(), n);
    }
}

proof fn lemma_ranked_error(inputs: Seq<PlanView>, n: int, limit: nat, next: nat)
    requires
        0 <= n <= inputs.len(),
        ranked_all(inputs.take(n), limit, next) is Err,
    ensures
        ranked_all(inputs, limit, next) is Err,
        ranked_all(inputs, limit, next)->Err_0 == ranked_all(inputs.take(n), limit, next)->Err_0,
    decreases inputs.len(),
{
    if n == inputs.len() {
        assert(inputs.take(n) == inputs);
    } else {
        assert(inputs.drop_last().take(n) == inputs.take(n));
        lemma_ranked_error(inputs.drop_last(), n, limit, next);
    }
}

proof fn lemma_ids_prefix(inputs: Seq<PlanView>, n: int)
    requires
        0 <= n <= inputs.len(),
    ensures
        ids_all(inputs.take(n)) <= ids_all(inputs),
    decreases inputs.len(),
{
    if n == inputs.len() {
        assert(inputs.take(n) == inputs);
    } else {
        assert(inputs.drop_last().take(n) == inputs.take(n));
        lemma_ids_prefix(inputs.drop_last(), n);
    }
}

/// Whether a `relevance()` marker stands anywhere in a plan.
fn plan_contains_marker(plan: &Plan) -> (r: bool)
    ensures
        r == ranks(plan@),
    decreases plan, 1nat,
{
    let ghost all = plan_views(plan.inputs@);
    assert(plan@.inputs == all);
    assert(plan@.exprs.subrange(0, plan.exprs@.len() as int) =~= plan@.exprs);
    if Kind::Relevance.any_marker(&plan.exprs, 0, plan.exprs.len()) {
        return true;
    }
    let mut i: usize = 0;
    assert(!any_ranks(all.take(0)));
    while i < plan.inputs.len()
        invariant
            i <= plan.inputs.len(),
            all == plan_views(plan.inputs@),
            !any_ranks(all.take(i as int)),
            all == plan@.inputs,
        decreases plan.inputs.len() - i,
    {
        assert(all.take(i + 1).drop_last() == all.take(i as int));
        assert(all.take(i + 1).last() == plan.inputs@[i as int]@);
        assert(decreases_to!(*plan => plan.inputs@[i as int]));
        if plan_contains_marker(&plan.inputs[i]) {
            proof {
                lemma_any_ranks_prefix(all, i + 1);
            }
            return true;
        }
        i += 1;
    }
    assert(all.take(i as int) == all);
    false
}

/// The first limit found walking down from the root, plus any offset:
/// `LIMIT 10 OFFSET 5` needs 15 rows ranked, not 10. `None` means that the
/// query has no limit at all.
pub fn find_fetch(plan: &Plan) -> (r: Option<usize>)
    ensures
        r == first_fetch(plan@),
    decreases plan, 1nat,
{
    let ghost all = plan_views(plan.inputs@);
    assert(plan@.inputs == all);
    let own: Option<usize> = match &plan.op {
        Op::Limit { fetch, skip } => match fetch {
            Some(fetch) => Some(fetch.saturating_add(*skip)),
            None => None,
        },
        Op::Sort { fetch } => *fetch,
        _ => None,
    };
    if own.is_some() {
        return own;
    }
    let mut i: usize = 0;
    assert(first_fetch_of(all.take(0)) is None);
    while i < plan.inputs.len()
        invariant
            i <= plan.inputs.len(),
            all == plan_views(plan.inputs@),
            first_fetch_of(all.take(i as int)) is None,
            all == plan@.inputs,
            own_fetch(plan@.op) is None,
        decreases plan.inputs.len() - i,
    {
        assert(all.take(i + 1).drop_last() == all.take(i as int));
        assert(all.take(i + 1).last() == plan.inputs@[i as int]@);
        assert(decreases_to!(*plan => plan.inputs@[i as int]));
        let found = find_fetch(&plan.inputs[i]);
        if found.is_some() {
            proof {
                lemma_fetch_prefix(all, i + 1);
            }
            return found;
        }
        i += 1;
    }
    assert(all.take(i as int) == all);
    None
}

/// Puts the rank nodes of one node below it.
fn rewrite_node(node: Plan, limit: usize, next: usize) -> (r: Result<(Plan, usize), PlanError>)
    requires
        node_formed(node@),
        next + ids_of(node@.exprs) <= usize::MAX,
    ensures
        ({
            let want = ranked_node(node@, limit as nat, next as nat);
            match r {
                Ok((p, n)) => want == Ok::<(PlanView, nat), PlanErrorView>((p@, n as nat)),
                Err(e) => want == Err::<(PlanView, nat), PlanErrorView>(e@),
            }
        }),
{
    let n: usize = node.exprs.len();
    assert(node@.exprs.subrange(0, n as int) =~= node@.exprs);
    if !Kind::Relevance.any_marker(&node.exprs, 0, n) {
        return Ok((node, next));
    }
    let naming: Naming = match &node.op {
        Op::Projection => Naming::Kept,
        Op::Sort { .. } => Naming::Free,
        _ => {
            return Err(PlanError::Plan(NOT_IN_SELECT_OR_ORDER_BY.to_owned()));
        },
    };
    assert(node@.inputs.len() == node.inputs@.len());
    match Kind::Relevance.rewrite_over(node, n, naming, limit, next) {
        Ok((p, count)) => Ok((p, next + count)),
        Err(err) => Err(err),
    }
}

/// Puts the rank nodes of a plan in their places, from the bottom up.
fn rank_plan(plan: Plan, limit: usize, next: usize) -> (r: Result<(Plan, usize), PlanError>)
    requires
        formed(plan@),
        next + ids(plan@) <= usize::MAX,
    ensures
        ({
            let want = ranked(plan@, limit as nat, next as nat);
            match r {
                Ok((p, n)) => want == Ok::<(PlanView, nat), PlanErrorView>((p@, n as nat)) && n
                    <= next + ids(plan@),
                Err(e) => want == Err::<(PlanView, nat), PlanErrorView>(e@),
            }
        }),
    decreases plan, 1nat,
{
    let ghost all = plan_views(plan.inputs@);
    let ghost start = plan@;
    let ghost original = plan;
    assert(start.inputs == all);
    let Plan { op, exprs, inputs } = plan;
    let ghost given = inputs@;
    let mut inputs = inputs;
    let mut done: Vec<Plan> = Vec::new();
    let mut then: usize = next;
    let mut i: usize = 0;
    assert(plan_views(done@) =~= Seq::<PlanView>::empty());
    while i < inputs.len()
        invariant
            i <= inputs.len(),
            inputs@.len() == given.len(),
            given == original.inputs@,
            original == plan,
            original@ == start,
            formed(start),
            all == plan_views(given),
            start.inputs == all,
            next + ids_all(all) <= usize::MAX,
            forall|k: int| i <= k < given.len() ==> inputs@[k] == given[k],
            ranked_all(all.take(i as int), limit as nat, next as nat) == Ok::<
                (Seq<PlanView>, nat),
                PlanErrorView,
            >((plan_views(done@), then as nat)),
            done@.len() == i,
            then <= next + ids_all(all.take(i as int)),
        decreases inputs.len() - i,
    {
        let mut input = Plan { op: Op::Projection, exprs: Vec::new(), inputs: Vec::new() };
        std::mem::swap(&mut inputs[i], &mut input);
        assert(input == given[i as int]);
        assert(decreases_to!(original => original.inputs@[i as int]));
        assert(all.take(i + 1).drop_last() == all.take(i as int));
        assert(all.take(i + 1).last() == input@);
        proof {
            lemma_all_formed(start.inputs, i as int);
            lemma_ids_prefix(all, i + 1);
        }
        let ghost before = plan_views(done@);
        match rank_plan(input, limit, then) {
            Err(err) => {
                proof {
                    lemma_ranked_error(all, i + 1, limit as nat, next as nat);
                }
                return Err(err);
            },
            Ok((p, after)) => {
                done.push(p);
                assert(plan_views(done@) =~= before.push(p@));
                then = after;
            },
        }
        i += 1;
    }
    assert(all.take(i as int) == all);
    let node = Plan { op, exprs, inputs: done };
    assert(node_formed(start));
    assert(node@.inputs.len() == all.len());
    rewrite_node(node, limit, then)
}

impl RelevanceRewriteRule {
    /// The name that the optimizer logs the rule under.
    pub fn name(&self) -> (r: &'static str)
        ensures
            r@ == "semcast_relevance_rewrite"@,
    {
        "semcast_relevance_rewrite"
    }

    /// Rewrites a whole plan: the limit that sizes the candidate stage sits
    /// above the marker.
    pub fn rewrite(&self, plan: Plan) -> (r: Result<Transformed, PlanError>)
        requires
            formed(plan@),
            ids(plan@) <= usize::MAX,
        ensures
            tells(r, plan@, rank_outcome(plan@)),
    {
        if !plan_contains_marker(&plan) {
            return Ok(Transformed { plan, changed: false });
        }
        match find_fetch(&plan) {
            None => Err(PlanError::Plan(NO_LIMIT.to_owned())),
            Some(limit) => match rank_plan(plan, limit, 0) {
                Ok((plan, _)) => Ok(Transformed { plan, changed: true }),
                Err(err) => Err(err),
            },
        }
    }
}

/// A limit asks for its rows and for those that it skips, and it counts before any
/// limit below it; a node that asks for none leaves it to its input.
pub proof fn the_uppermost_limit_counts(p: PlanView, fetch: usize, skip: usize)
    ensures
        p.op == (OpView::Limit { fetch: Some(fetch), skip }) && fetch + skip <= usize::MAX
            ==> first_fetch(p) == Some((fetch + skip) as usize),
        p.op == (OpView::Sort { fetch: Some(fetch) }) ==> first_fetch(p) == Some(fetch),
        !(p.op is Limit) && !(p.op is Sort) && p.inputs.len() == 1 ==> first_fetch(p)
            == first_fetch(p.inputs[0]),
{
    if p.inputs.len() == 1 {
        assert(p.inputs.drop_last() =~= Seq::<PlanView>::empty());
        assert(first_fetch_of(p.inputs.drop_last()) is None);
        assert(p.inputs.last() == p.inputs[0]);
    }
}

/// A ranking needs a limit, and gets no node without one; and a plan without a
/// `relevance()` marker is left as it is.
pub proof fn a_ranking_needs_a_limit(p: PlanView)
    ensures
        rank_outcome(p) is Unchanged <==> !ranks(p),
        ranks(p) && first_fetch(p) is None ==> rank_outcome(p) == Outcome::Refused(
            PlanErrorView::Plan(NO_LIMIT@),
        ),
        rank_outcome(p) is Changed ==> first_fetch(p) is Some,
{
}

/// Where the markers of a projection or a sort are ranked, the uppermost of its
/// nodes ranks by the marker's query, for as many rows as the statement asks for,
/// and the node reads its input through them.
pub proof fn a_ranked_node_ranks_for_the_limit(node: PlanView, limit: nat, next: nat, i: int)
    requires
        node.op is Projection || node.op is Sort,
        ranked_node(node, limit, next) is Ok,
        Kind::Relevance.occurs_in(node.exprs),
    ensures
        ({
            let p = ranked_node(node, limit, next)->Ok_0.0;
            let found = Kind::Relevance.groups(node.exprs.subrange(0, node.exprs.len() as int))->Ok_0;
            &&& p.op == node.op
            &&& p.exprs.len() == node.exprs.len()
            &&& beneath(p.inputs[0], found.len()) == node.inputs[0]
            &&& ranked_node(node, limit, next)->Ok_0.1 == next + found.len()
            &&& 0 <= i < found.len() ==> (found[i].setting matches SettingView::Query(query)
                ==> beneath(p.inputs[0], (found.len() - 1 - i) as nat).op == OpView::SemRank {
                query,
                limit,
                id: (next + i) as nat,
            })
        }),
{
    let n = node.exprs.len();
    let naming = if node.op is Projection {
        Naming::Kept
    } else {
        Naming::Free
    };
    rewriting_keeps_the_node(Kind::Relevance, node, n, naming, limit, next);
    let found = Kind::Relevance.groups(node.exprs.subrange(0, n as int))->Ok_0;
    markers_stand_over_the_input(found, node.inputs[0], limit, next, i);
}

/// Numbers go on where the inputs left off: a plan is ranked over its ranked input,
/// and its own nodes are numbered from the first number that the input left free.
pub proof fn numbers_go_on_where_the_input_left_off(
    p: PlanView,
    q: PlanView,
    limit: nat,
    next: nat,
)
    requires
        p.inputs == seq![q],
        ranked(p, limit, next) is Ok,
    ensures
        ranked(q, limit, next) is Ok,
        ({
            let (input, free) = ranked(q, limit, next)->Ok_0;
            &&& next <= free <= ranked(p, limit, next)->Ok_0.1
            &&& ranked(p, limit, next) == ranked_node(
                PlanView { op: p.op, exprs: p.exprs, inputs: seq![input] },
                limit,
                free,
            )
        }),
{
    let none = Seq::<PlanView>::empty();
    assert(p.inputs.drop_last() =~= none);
    assert(p.inputs.last() == q);
    assert(ranked_all(none, limit, next) == Ok::<(Seq<PlanView>, nat), PlanErrorView>(
        (none, next),
    ));
    if ranked(q, limit, next) is Ok {
        let (input, free) = ranked(q, limit, next)->Ok_0;
        assert(none.push(input) =~= seq![input]);
        lemma_numbers_rise(q, limit, next);
        lemma_numbers_rise(p, limit, next);
    }
}

/// Plans that stand side by side share no number: the second is numbered from where
/// the first left off.
pub proof fn plans_side_by_side_share_no_number(
    inputs: Seq<PlanView>,
    q: PlanView,
    limit: nat,
    next: nat,
)
    requires
        ranked_all(inputs.push(q), limit, next) is Ok,
    ensures
        ranked_all(inputs, limit, next) is Ok,
        ({
            let (before, free) = ranked_all(inputs, limit, next)->Ok_0;
            &&& next <= free
            &&& ranked(q, limit, free) is Ok
            &&& ranked_all(inputs.push(q), limit, next)->Ok_0.0 == before.push(
                ranked(q, limit, free)->Ok_0.0,
            )
        }),
{
    assert(inputs.push(q).drop_last() =~= inputs);
    lemma_all_numbers_rise(inputs, limit, next);
}

proof fn lemma_numbers_rise(p: PlanView, limit: nat, next: nat)
    ensures
        ranked(p, limit, next) matches Ok((_, then)) ==> next <= then,
        ranked(p, limit, next) is Ok ==> ranked_all(p.inputs, limit, next)->Ok_0.1 <= ranked(
            p,
            limit,
            next,
        )->Ok_0.1,
    decreases p, 0nat,
{
    lemma_all_numbers_rise(p.inputs, limit, next);
}

proof fn lemma_all_numbers_rise(inputs: Seq<PlanView>, limit: nat, next: nat)
    ensures
        ranked_all(inputs, limit, next) matches Ok((_, then)) ==> next <= then,
    decreases inputs, 1nat,
{
    if inputs.len() > 0 {
        lemma_all_numbers_rise(inputs.drop_last(), limit, next);
        if let Ok((_, then)) = ranked_all(inputs.drop_last(), limit, next) {
            lemma_numbers_rise(inputs.last(), limit, then);
        }
    }
}

}
