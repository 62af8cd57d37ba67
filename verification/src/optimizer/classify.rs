//! Turns `means()` calls in a `SELECT` list into classify nodes.
//!
//! A `MEANS` in a `WHERE` is a filter; in a `SELECT` list it is a label. The
//! node materializes one boolean column per condition and the `CASE` stays
//! where it was, referencing those columns. Conditions over the same text are
//! fused into a single model call per row, which is an optimization only: every
//! column still answers exactly the question that the same `MEANS` would ask in
//! a `WHERE`.

use vstd::prelude::*;

use crate::logical::expr::{
    and, any_call, any_calls, both, calls, conjoined, conjunction, expr_views, is_call,
    is_not_true, not_true, opt_expr, Expr, ExprView, Head, HeadView,
};
use crate::logical::plan::{
    node_formed, plan_views, tells, Op, OpView, Outcome, Plan, PlanError, PlanErrorView, PlanView,
    Transformed,
};
use crate::logical::sem_classify::{branch_column_name, branch_name};
use crate::optimizer::markers::{beneath, column_expr, column_ref, name_like, named_like};
use crate::optimizer::rewrite::{
    a_call_asks_what_it_says, destructure_means, destructured, MEANS_UDF_NAME,
};
use crate::text::views;

verus! {

pub const NOTHING_TO_CALIBRATE: &'static str =
    "WITH RECALL calibrates the index pre-filter for a MEANS in a WHERE clause; a MEANS in the SELECT list labels every row, so there is nothing to calibrate";

/// The conditions asked of one text, of the rows that one guard lets through.
#[derive(Debug)]
pub struct Group {
    pub text: Expr,
    pub guard: Option<Expr>,
    /// In the order of first appearance; the index is the branch index.
    pub conditions: Vec<String>,
}

/// What a [`Group`] stands for.
pub struct GroupView {
    pub text: ExprView,
    pub guard: Option<ExprView>,
    pub conditions: Seq<Seq<char>>,
}

impl View for Group {
    type V = GroupView;

    open spec fn view(&self) -> GroupView {
        GroupView {
            text: self.text@,
            guard: opt_expr(self.guard),
            conditions: views(self.conditions@),
        }
    }
}

pub open spec fn group_views(groups: Seq<Group>) -> Seq<GroupView> {
    groups.map_values(|g: Group| g@)
}

/// Where a text under a guard has its group.
pub open spec fn group_index(
    groups: Seq<GroupView>,
    text: ExprView,
    guard: Option<ExprView>,
) -> Option<int>
    decreases groups.len(),
{
    if groups.len() == 0 {
        None
    } else {
        match group_index(groups.drop_last(), text, guard) {
            Some(i) => Some(i),
            None => if groups.last().text == text && groups.last().guard == guard {
                Some(groups.len() - 1)
            } else {
                None
            },
        }
    }
}

/// Where a condition first stands among some.
pub open spec fn branch_index(conditions: Seq<Seq<char>>, condition: Seq<char>) -> Option<int>
    decreases conditions.len(),
{
    if conditions.len() == 0 {
        None
    } else {
        match branch_index(conditions.drop_last(), condition) {
            Some(i) => Some(i),
            None => if conditions.last() == condition {
                Some(conditions.len() - 1)
            } else {
                None
            },
        }
    }
}

/// Some groups, with one for the text under the guard among them, and where it
/// is.
pub open spec fn with_group(
    groups: Seq<GroupView>,
    text: ExprView,
    guard: Option<ExprView>,
) -> (Seq<GroupView>, int) {
    match group_index(groups, text, guard) {
        Some(i) => (groups, i),
        None => (
            groups.push(GroupView { text, guard, conditions: Seq::empty() }),
            groups.len() as int,
        ),
    }
}

/// Some conditions, with one among them, and where it is.
pub open spec fn with_branch(conditions: Seq<Seq<char>>, condition: Seq<char>) -> (
    Seq<Seq<char>>,
    int,
) {
    match branch_index(conditions, condition) {
        Some(i) => (conditions, i),
        None => (conditions.push(condition), conditions.len() as int),
    }
}

/// What registering a question leads to: the groups, and the group and the
/// branch whose column will answer it.
pub open spec fn registered(
    groups: Seq<GroupView>,
    text: ExprView,
    condition: Seq<char>,
    guard: Option<ExprView>,
) -> (Seq<GroupView>, int, int) {
    let (held, g) = with_group(groups, text, guard);
    let (conditions, b) = with_branch(held[g].conditions, condition);
    (held.update(g, GroupView { text, guard, conditions }), g, b)
}

/// The text and the condition of a call in a `SELECT` list, or why it has none.
pub open spec fn label_of(call: ExprView) -> Result<(ExprView, Seq<char>), PlanErrorView> {
    match destructured(call) {
        Err(err) => Err(err),
        Ok(asked) => if asked.recall is Some {
            Err(PlanErrorView::Plan(NOTHING_TO_CALIBRATE@))
        } else {
            Ok((asked.text, asked.condition))
        },
    }
}

/// How many `WHEN`s come before the first that asks the model, from the `k`th
/// on.
pub open spec fn leading_count(args: Seq<ExprView>, branches: nat, k: nat) -> nat
    decreases branches - k,
{
    if k >= branches || 2 * k >= args.len() || calls(args[2 * k as int], MEANS_UDF_NAME@) {
        k
    } else {
        leading_count(args, branches, k + 1)
    }
}

/// The first `n` `WHEN`s, each taken as one that did not match.
pub open spec fn leading(args: Seq<ExprView>, n: nat) -> Seq<ExprView> {
    Seq::new(n, |k: int| not_true(args[2 * k]))
}

/// The guard that the `MEANS` branches of a `CASE` inherit: every ordinary
/// condition before the first of them must have failed to match.
pub open spec fn case_guard_of(e: ExprView, outer: Option<ExprView>) -> Option<ExprView> {
    match e.head {
        HeadView::Case { base: false, branches, .. } => {
            let own = conjoined(leading(e.args, leading_count(e.args, branches, 0)));
            match outer {
                None => own,
                Some(outer) => match own {
                    None => Some(outer),
                    Some(own) => Some(both(outer, own)),
                },
            }
        },
        _ => outer,
    }
}

/// Whether an argument of an expression is the `WHEN` of a `CASE` branch.
pub open spec fn is_when(head: HeadView, j: int) -> bool {
    match head {
        HeadView::Case { base, branches, .. } => {
            let start: int = if base {
                1
            } else {
                0
            };
            j >= start && (j - start) % 2 == 0 && (j - start) / 2 < branches
        },
        _ => false,
    }
}

/// The guard under which an argument of an expression is evaluated. Only a
/// `WHEN` that asks the model is gated.
pub open spec fn arg_guard(e: ExprView, j: int, guard: Option<ExprView>) -> Option<ExprView> {
    if is_when(e.head, j) && calls(e.args[j], MEANS_UDF_NAME@) {
        case_guard_of(e, guard)
    } else {
        guard
    }
}

/// An expression with every call replaced by the column that answers it, and
/// the groups that were asked for on the way; or why it cannot be.
pub open spec fn labelled(
    e: ExprView,
    guard: Option<ExprView>,
    groups: Seq<GroupView>,
) -> Result<(ExprView, Seq<GroupView>), PlanErrorView>
    decreases e,
{
    if is_call(e, MEANS_UDF_NAME@) {
        match label_of(e) {
            Err(err) => Err(err),
            Ok((text, condition)) => {
                let (now, g, b) = registered(groups, text, condition, guard);
                Ok((column_ref(branch_name(g as nat, b as nat)), now))
            },
        }
    } else {
        let guards = Seq::new(e.args.len(), |j: int| arg_guard(e, j, guard));
        match labelled_all(e.args, guards, groups) {
            Err(err) => Err(err),
            Ok((args, now)) => Ok((ExprView { head: e.head, args }, now)),
        }
    }
}

/// Some expressions, each under its guard, one after another.
pub open spec fn labelled_all(
    args: Seq<ExprView>,
    guards: Seq<Option<ExprView>>,
    groups: Seq<GroupView>,
) -> Result<(Seq<ExprView>, Seq<GroupView>), PlanErrorView>
    decreases args,
{
    if args.len() == 0 {
        Ok((Seq::empty(), groups))
    } else {
        match labelled_all(args.drop_last(), guards, groups) {
            Err(err) => Err(err),
            Ok((before, then)) => match labelled(args.last(), guards[args.len() - 1], then) {
                Err(err) => Err(err),
                Ok((e, now)) => Ok((before.push(e), now)),
            },
        }
    }
}

/// Some output expressions, each under the name that it had.
pub open spec fn outputs(exprs: Seq<ExprView>, groups: Seq<GroupView>) -> Result<
    (Seq<ExprView>, Seq<GroupView>),
    PlanErrorView,
>
    decreases exprs.len(),
{
    if exprs.len() == 0 {
        Ok((Seq::empty(), groups))
    } else {
        match outputs(exprs.drop_last(), groups) {
            Err(err) => Err(err),
            Ok((before, then)) => match labelled(exprs.last(), None, then) {
                Err(err) => Err(err),
                Ok((e, now)) => Ok((before.push(named_like(e, exprs.last())), now)),
            },
        }
    }
}

/// The classify node of a group, over a plan.
pub open spec fn classify_node(g: GroupView, input: PlanView, id: nat) -> PlanView {
    PlanView {
        op: OpView::SemClassify { conditions: g.conditions, guarded: g.guard is Some, id },
        exprs: match g.guard {
            Some(guard) => seq![g.text, guard],
            None => seq![g.text],
        },
        inputs: seq![input],
    }
}

/// One classify node per group, stacked above a plan.
pub open spec fn classified(groups: Seq<GroupView>, input: PlanView) -> PlanView
    decreases groups.len(),
{
    if groups.len() == 0 {
        input
    } else {
        classify_node(
            groups.last(),
            classified(groups.drop_last(), input),
            (groups.len() - 1) as nat,
        )
    }
}

/// What becomes of a projection.
pub open spec fn projection_outcome(plan: PlanView) -> Outcome {
    if !any_calls(plan.exprs, MEANS_UDF_NAME@) {
        Outcome::Unchanged
    } else {
        match outputs(plan.exprs, Seq::empty()) {
            Err(err) => Outcome::Refused(err),
            Ok((exprs, groups)) => Outcome::Changed(
                PlanView {
                    op: plan.op,
                    exprs,
                    inputs: seq![classified(groups, plan.inputs[0])],
                },
            ),
        }
    }
}

/// Whether two optional expressions are the same.
fn same_guard(a: &Option<Expr>, b: &Option<Expr>) -> (r: bool)
    ensures
        r == (opt_expr(*a) == opt_expr(*b)),
{
    match a {
        None => b.is_none(),
        Some(x) => match b {
            None => false,
            Some(y) => x.same(y),
        },
    }
}

fn copy_guard(guard: &Option<Expr>) -> (r: Option<Expr>)
    ensures
        opt_expr(r) == opt_expr(*guard),
{
    match guard {
        None => None,
        Some(e) => Some(e.copy()),
    }
}

proof fn lemma_group_prefix(
    groups: Seq<GroupView>,
    n: int,
    text: ExprView,
    guard: Option<ExprView>,
)
    requires
        0 <= n <= groups.len(),
        group_index(groups.take(n), text, guard) is Some,
    ensures
        group_index(groups, text, guard) == group_index(groups.take(n), text, guard),
    decreases groups.len(),
{
    if n == groups.len() {
        assert(groups.take(n) == groups);
    } else {
        assert(groups.drop_last().take(n) == groups.take(n));
        lemma_group_prefix(groups.drop_last(), n, text, guard);
    }
}

proof fn lemma_branch_prefix(conditions: Seq<Seq<char>>, n: int, condition: Seq<char>)
    requires
        0 <= n <= conditions.len(),
        branch_index(conditions.take(n), condition) is Some,
    ensures
        branch_index(conditions, condition) == branch_index(conditions.take(n), condition),
    decreases conditions.len(),
{
    if n == conditions.len() {
        assert(conditions.take(n) == conditions);
    } else {
        assert(conditions.drop_last().take(n) == conditions.take(n));
        lemma_branch_prefix(conditions.drop_last(), n, condition);
    }
}

proof fn lemma_group_index(groups: Seq<GroupView>, text: ExprView, guard: Option<ExprView>)
    ensures
        group_index(groups, text, guard) matches Some(i) ==> 0 <= i < groups.len()
            && groups[i].text == text && groups[i].guard == guard,
    decreases groups.len(),
{
    if groups.len() > 0 {
        lemma_group_index(groups.drop_last(), text, guard);
    }
}

proof fn lemma_branch_index(conditions: Seq<Seq<char>>, condition: Seq<char>)
    ensures
        branch_index(conditions, condition) matches Some(i) ==> 0 <= i < conditions.len()
            && conditions[i] == condition,
    decreases conditions.len(),
{
    if conditions.len() > 0 {
        lemma_branch_index(conditions.drop_last(), condition);
    }
}

fn find_group(groups: &Vec<Group>, text: &Expr, guard: &Option<Expr>) -> (r: Option<usize>)
    ensures
        match r {
            Some(i) => i < groups.len() && group_index(
                group_views(groups@),
                text@,
                opt_expr(*guard),
            ) == Some(i as int),
            None => group_index(group_views(groups@), text@, opt_expr(*guard)) is None,
        },
{
    let ghost all = group_views(groups@);
    let mut i: usize = 0;
    while i < groups.len()
        invariant
            i <= groups.len(),
            all == group_views(groups@),
            group_index(all.take(i as int), text@, opt_expr(*guard)) is None,
        decreases groups.len() - i,
    {
        assert(all.take(i + 1).drop_last() == all.take(i as int));
        assert(all.take(i + 1).last() == groups@[i as int]@);
        if groups[i].text.same(text) && same_guard(&groups[i].guard, guard) {
            proof {
                lemma_group_prefix(all, i + 1, text@, opt_expr(*guard));
            }
            return Some(i);
        }
        i += 1;
    }
    assert(all.take(i as int) == all);
    None
}

fn find_branch(conditions: &Vec<String>, condition: &String) -> (r: Option<usize>)
    ensures
        match r {
            Some(i) => i < conditions.len() && branch_index(views(conditions@), condition@) == Some(
                i as int,
            ),
            None => branch_index(views(conditions@), condition@) is None,
        },
{
    let ghost all = views(conditions@);
    let mut i: usize = 0;
    while i < conditions.len()
        invariant
            i <= conditions.len(),
            all == views(conditions@),
            branch_index(all.take(i as int), condition@) is None,
        decreases conditions.len() - i,
    {
        assert(all.take(i + 1).drop_last() == all.take(i as int));
        assert(all.take(i + 1).last() == conditions@[i as int]@);
        if conditions[i] == *condition {
            proof {
                lemma_branch_prefix(all, i + 1, condition@);
            }
            return Some(i);
        }
        i += 1;
    }
    assert(all.take(i as int) == all);
    None
}

/// The column that will carry a condition's verdict, making the group and the
/// branch where this is the first time that either is seen.
pub fn register(groups: &mut Vec<Group>, text: Expr, condition: String, guard: &Option<Expr>) -> (r:
    String)
    ensures
        ({
            let (now, g, b) = registered(
                group_views(old(groups)@),
                text@,
                condition@,
                opt_expr(*guard),
            );
            group_views(final(groups)@) == now && r@ == branch_name(g as nat, b as nat)
        }),
{
    let ghost start = group_views(groups@);
    let ghost gu = opt_expr(*guard);
    let ghost want = registered(start, text@, condition@, gu);
    let ghost held = with_group(start, text@, gu).0;
    let ghost words = condition@;
    let ghost about = text@;
    proof {
        lemma_group_index(start, text@, gu);
    }
    let g: usize = match find_group(groups, &text, guard) {
        Some(g) => g,
        None => {
            groups.push(Group { text, guard: copy_guard(guard), conditions: Vec::new() });
            assert(groups@.last()@.conditions =~= Seq::<Seq<char>>::empty());
            assert(group_views(groups@) =~= held);
            groups.len() - 1
        },
    };
    assert(group_views(groups@) == held);
    assert(g == want.1);
    let ghost before = groups@;
    assert(held[g as int] == before[g as int]@);
    let b: usize = match find_branch(&groups[g].conditions, &condition) {
        Some(b) => {
            assert(held.update(
                g as int,
                GroupView { text: about, guard: gu, conditions: held[g as int].conditions },
            ) =~= held);
            b
        },
        None => {
            let b: usize = groups[g].conditions.len();
            groups[g].conditions.push(condition);
            assert(views(groups@[g as int].conditions@) =~= held[g as int].conditions.push(words));
            assert(group_views(groups@) =~= want.0);
            b
        },
    };
    assert(group_views(groups@) =~= want.0);
    branch_column_name(g, b)
}

/// The guard that a `CASE`'s `MEANS` branches inherit.
///
/// `IS NOT TRUE` rather than `NOT`, because an unknown condition does not match
/// a `CASE` branch but `NOT` of an unknown is unknown, which, read as a guard,
/// would wrongly skip the call.
fn case_guard(e: &Expr, outer: &Option<Expr>) -> (r: Option<Expr>)
    ensures
        opt_expr(r) == case_guard_of(e@, opt_expr(*outer)),
{
    let branches: usize = match &e.head {
        Head::Case { base, branches, .. } => {
            if *base {
                return copy_guard(outer);
            }
            *branches
        },
        _ => {
            return copy_guard(outer);
        },
    };
    let ghost all = expr_views(e.args@);
    assert(e@.args == all);
    let mut whens: Vec<Expr> = Vec::new();
    let mut k: usize = 0;
    let n: usize = e.args.len();
    assert(expr_views(whens@) =~= leading(all, 0));
    while k < branches && k < n - k && !e.args[2 * k].contains_call(MEANS_UDF_NAME)
        invariant
            n == e.args.len(),
            2 * k <= n + 1,
            k <= n,
            all == expr_views(e.args@),
            expr_views(whens@) == leading(all, k as nat),
            leading_count(all, branches as nat, 0) == leading_count(all, branches as nat, k as nat),
        decreases n - k,
    {
        let ghost before = expr_views(whens@);
        let when = is_not_true(e.args[2 * k].copy());
        whens.push(when);
        assert(all[2 * k as int] == e.args@[2 * k as int]@);
        assert(expr_views(whens@) =~= before.push(when@));
        assert(leading(all, (k + 1) as nat) =~= before.push(when@));
        k += 1;
    }
    assert(k < branches && 2 * k < n ==> all[2 * k as int] == e.args@[2 * k as int]@);
    assert(leading_count(all, branches as nat, k as nat) == k);
    match conjunction(&whens) {
        None => copy_guard(outer),
        Some(own) => match outer {
            None => Some(own),
            Some(outer) => Some(and(outer.copy(), own)),
        },
    }
}

/// Whether an argument of an expression is the `WHEN` of a `CASE` branch.
fn at_when(head: &Head, j: usize) -> (r: bool)
    ensures
        r == is_when(head@, j as int),
{
    match head {
        Head::Case { base, branches, .. } => {
            let start: usize = if *base {
                1
            } else {
                0
            };
            j >= start && (j - start) % 2 == 0 && (j - start) / 2 < *branches
        },
        _ => false,
    }
}

/// The text and the condition of a call in a `SELECT` list.
fn read_label(call: &Expr) -> (r: Result<(Expr, String), PlanError>)
    ensures
        match r {
            Ok((text, condition)) => label_of(call@) == Ok::<(ExprView, Seq<char>), PlanErrorView>(
                (text@, condition@),
            ),
            Err(e) => label_of(call@) == Err::<(ExprView, Seq<char>), PlanErrorView>(e@),
        },
{
    match destructure_means(call) {
        Err(err) => Err(err),
        Ok(asked) => if asked.recall.is_some() {
            Err(PlanError::Plan(NOTHING_TO_CALIBRATE.to_owned()))
        } else {
            Ok((asked.text, asked.condition))
        },
    }
}

proof fn lemma_labelled_error(
    args: Seq<ExprView>,
    n: int,
    guards: Seq<Option<ExprView>>,
    groups: Seq<GroupView>,
)
    requires
        0 <= n <= args.len(),
        labelled_all(args.take(n), guards, groups) is Err,
    ensures
        labelled_all(args, guards, groups) is Err,
        labelled_all(args, guards, groups)->Err_0 == labelled_all(
            args.take(n),
            guards,
            groups,
        )->Err_0,
    decreases args.len(),
{
    if n == args.len() {
        assert(args.take(n) == args);
    } else {
        assert(args.drop_last().take(n) == args.take(n));
        lemma_labelled_error(args.drop_last(), n, guards, groups);
    }
}

/// Replaces every `means()` in an expression by the column that its classify
/// node will produce, threading the guard that says which rows reach it.
fn rewrite_expr(e: &Expr, guard: &Option<Expr>, groups: &mut Vec<Group>) -> (r: Result<
    Expr,
    PlanError,
>)
    ensures
        ({
            let want = labelled(e@, opt_expr(*guard), group_views(old(groups)@));
            match r {
                Ok(x) => want == Ok::<(ExprView, Seq<GroupView>), PlanErrorView>(
                    (x@, group_views(final(groups)@)),
                ),
                Err(err) => want == Err::<(ExprView, Seq<GroupView>), PlanErrorView>(err@),
            }
        }),
    decreases e, 1nat,
{
    let ghost start = group_views(groups@);
    let ghost gu = opt_expr(*guard);
    if e.is_call_of(MEANS_UDF_NAME) {
        return match read_label(e) {
            Err(err) => Err(err),
            Ok((text, condition)) => {
                let column = register(groups, text, condition, guard);
                Ok(column_expr(column))
            },
        };
    }
    let ghost all = expr_views(e.args@);
    assert(e@.args == all);
    let ghost guards = Seq::new(all.len(), |j: int| arg_guard(e@, j, gu));
    let inner = case_guard(e, guard);
    let mut args: Vec<Expr> = Vec::new();
    let mut i: usize = 0;
    assert(expr_views(args@) =~= Seq::<ExprView>::empty());
    while i < e.args.len()
        invariant
            i <= e.args.len(),
            all == expr_views(e.args@),
            all == e@.args,
            !is_call(e@, MEANS_UDF_NAME@),
            gu == opt_expr(*guard),
            start == group_views(old(groups)@),
            guards == Seq::new(all.len(), |j: int| arg_guard(e@, j, gu)),
            opt_expr(inner) == case_guard_of(e@, gu),
            labelled_all(all.take(i as int), guards, start) == Ok::<
                (Seq<ExprView>, Seq<GroupView>),
                PlanErrorView,
            >((expr_views(args@), group_views(groups@))),
        decreases e.args.len() - i,
    {
        assert(all.take(i + 1).drop_last() == all.take(i as int));
        assert(all.take(i + 1).last() == e.args@[i as int]@);
        assert(decreases_to!(*e => e.args@[i as int]));
        let ghost before = expr_views(args@);
        let asks: bool = at_when(&e.head, i) && e.args[i].contains_call(MEANS_UDF_NAME);
        let result = if asks {
            rewrite_expr(&e.args[i], &inner, groups)
        } else {
            rewrite_expr(&e.args[i], guard, groups)
        };
        assert(guards[i as int] == (if asks {
            case_guard_of(e@, gu)
        } else {
            gu
        }));
        match result {
            Err(err) => {
                proof {
                    lemma_labelled_error(all, i + 1, guards, start);
                }
                return Err(err);
            },
            Ok(x) => {
                args.push(x);
                assert(expr_views(args@) =~= before.push(x@));
            },
        }
        i += 1;
    }
    assert(all.take(i as int) == all);
    Ok(Expr { head: e.head.copy(), args })
}

proof fn lemma_outputs_error(exprs: Seq<ExprView>, n: int, groups: Seq<GroupView>)
    requires
        0 <= n <= exprs.len(),
        outputs(exprs.take(n), groups) is Err,
    ensures
        outputs(exprs, groups) is Err,
        outputs(exprs, groups)->Err_0 == outputs(exprs.take(n), groups)->Err_0,
    decreases exprs.len(),
{
    if n == exprs.len() {
        assert(exprs.take(n) == exprs);
    } else {
        assert(exprs.drop_last().take(n) == exprs.take(n));
        lemma_outputs_error(exprs.drop_last(), n, groups);
    }
}

/// Stacks one node per group above a plan. The group's index is the node's id,
/// so the columns handed out during registration line up.
fn build(groups: &Vec<Group>, input: Plan) -> (r: Plan)
    ensures
        r@ == classified(group_views(groups@), input@),
{
    let ghost all = group_views(groups@);
    let ghost start = input@;
    let mut plan = input;
    let mut i: usize = 0;
    while i < groups.len()
        invariant
            i <= groups.len(),
            all == group_views(groups@),
            plan@ == classified(all.take(i as int), start),
        decreases groups.len() - i,
    {
        assert(all.take(i + 1).drop_last() == all.take(i as int));
        assert(all.take(i + 1).last() == groups@[i as int]@);
        let g = &groups[i];
        let ghost below = plan@;
        let mut exprs: Vec<Expr> = Vec::new();
        exprs.push(g.text.copy());
        let guarded: bool = match &g.guard {
            Some(guard) => {
                exprs.push(guard.copy());
                assert(expr_views(exprs@) =~= seq![g.text@, guard@]);
                true
            },
            None => {
                assert(expr_views(exprs@) =~= seq![g.text@]);
                false
            },
        };
        let mut inputs: Vec<Plan> = Vec::new();
        inputs.push(plan);
        plan =
        Plan {
            op: Op::SemClassify { conditions: crate::text::copy_list(&g.conditions), guarded, id: i },
            exprs,
            inputs,
        };
        assert(plan_views(plan.inputs@) =~= seq![below]);
        i += 1;
    }
    assert(all.take(i as int) == all);
    plan
}

/// Rewrites the `means()` calls of a projection into stacked classify nodes,
/// leaving a projection without any untouched.
pub fn rewrite_projection(plan: Plan) -> (r: Result<Transformed, PlanError>)
    requires
        plan.op is Projection,
        node_formed(plan@),
    ensures
        tells(r, plan@, projection_outcome(plan@)),
{
    assert(plan@.inputs.len() == plan.inputs@.len());
    assert(plan@.inputs[0] == plan.inputs@[0]@);
    assert(plan@.exprs.subrange(0, plan.exprs@.len() as int) =~= plan@.exprs);
    if !any_call(&plan.exprs, 0, plan.exprs.len(), MEANS_UDF_NAME) {
        return Ok(Transformed { plan, changed: false });
    }
    let ghost all = expr_views(plan.exprs@);
    let ghost start = plan@;
    let Plan { op, exprs, inputs } = plan;
    let mut groups: Vec<Group> = Vec::new();
    let mut out: Vec<Expr> = Vec::new();
    let mut i: usize = 0;
    assert(group_views(groups@) =~= Seq::<GroupView>::empty());
    assert(expr_views(out@) =~= Seq::<ExprView>::empty());
    let ghost none = Seq::<GroupView>::empty();
    while i < exprs.len()
        invariant
            i <= exprs.len(),
            all == expr_views(exprs@),
            none == Seq::<GroupView>::empty(),
            start == plan@,
            start.exprs == all,
            any_calls(all, MEANS_UDF_NAME@),
            outputs(all.take(i as int), none) == Ok::<
                (Seq<ExprView>, Seq<GroupView>),
                PlanErrorView,
            >((expr_views(out@), group_views(groups@))),
        decreases exprs.len() - i,
    {
        assert(all.take(i + 1).drop_last() == all.take(i as int));
        assert(all.take(i + 1).last() == exprs@[i as int]@);
        let ghost before = expr_views(out@);
        match rewrite_expr(&exprs[i], &None, &mut groups) {
            Err(err) => {
                proof {
                    lemma_outputs_error(all, i + 1, none);
                }
                return Err(err);
            },
            Ok(x) => {
                let named = name_like(x, exprs[i].copy());
                out.push(named);
                assert(expr_views(out@) =~= before.push(named@));
            },
        }
        i += 1;
    }
    assert(all.take(i as int) == all);
    let mut inputs = inputs;
    match inputs.pop() {
        None => Err(PlanError::Plan(NOTHING_TO_CALIBRATE.to_owned())),
        Some(input) => {
            let ghost below = input@;
            let input = build(&groups, input);
            let mut under: Vec<Plan> = Vec::new();
            under.push(input);
            assert(plan_views(under@) =~= seq![classified(group_views(groups@), below)]);
            Ok(Transformed { plan: Plan { op, exprs: out, inputs: under }, changed: true })
        },
    }
}

/// Groups that go on from others: each is still there, about the same text,
/// under the same guard, and each of its conditions stands where it stood.
pub open spec fn go_on(before: Seq<GroupView>, after: Seq<GroupView>) -> bool {
    &&& before.len() <= after.len()
    &&& forall|g: int|
        0 <= g < before.len() ==> {
            &&& (#[trigger] after[g]).text == before[g].text
            &&& after[g].guard == before[g].guard
            &&& before[g].conditions.is_prefix_of(after[g].conditions)
        }
}

proof fn lemma_go_on(a: Seq<GroupView>, b: Seq<GroupView>, c: Seq<GroupView>)
    requires
        go_on(a, b),
        go_on(b, c),
    ensures
        go_on(a, c),
{
    assert forall|g: int| 0 <= g < a.len() implies {
        &&& (#[trigger] c[g]).text == a[g].text
        &&& c[g].guard == a[g].guard
        &&& a[g].conditions.is_prefix_of(c[g].conditions)
    } by {
        assert(b[g].text == a[g].text);
        let (x, y, z) = (a[g].conditions, b[g].conditions, c[g].conditions);
        assert(z.subrange(0, x.len() as int) =~= y.subrange(0, x.len() as int));
    }
}

/// The column that a question is given is that of its own text, guard and
/// condition, and no question asked before loses its column.
pub proof fn a_column_answers_its_own_question(
    groups: Seq<GroupView>,
    text: ExprView,
    condition: Seq<char>,
    guard: Option<ExprView>,
)
    ensures
        ({
            let (now, g, b) = registered(groups, text, condition, guard);
            &&& 0 <= g < now.len()
            &&& now[g].text == text
            &&& now[g].guard == guard
            &&& 0 <= b < now[g].conditions.len()
            &&& now[g].conditions[b] == condition
            &&& go_on(groups, now)
        }),
{
    lemma_group_index(groups, text, guard);
    let (held, g) = with_group(groups, text, guard);
    lemma_branch_index(held[g].conditions, condition);
    let (now, _, b) = registered(groups, text, condition, guard);
    assert forall|k: int| 0 <= k < groups.len() implies {
        &&& (#[trigger] now[k]).text == groups[k].text
        &&& now[k].guard == groups[k].guard
        &&& groups[k].conditions.is_prefix_of(now[k].conditions)
    } by {
        assert(held[k] == groups[k]);
        assert(now[k].conditions.subrange(0, groups[k].conditions.len() as int)
            =~= groups[k].conditions);
    }
}

/// Rewriting an expression leaves no `means()` call in it, and no question
/// asked before loses its column.
pub proof fn labelling_leaves_no_call(
    e: ExprView,
    guard: Option<ExprView>,
    groups: Seq<GroupView>,
)
    ensures
        labelled(e, guard, groups) matches Ok((x, now)) ==> !calls(x, MEANS_UDF_NAME@) && go_on(
            groups,
            now,
        ),
    decreases e,
{
    if labelled(e, guard, groups) is Ok {
        let (x, now) = labelled(e, guard, groups)->Ok_0;
        if is_call(e, MEANS_UDF_NAME@) {
            let (text, condition) = label_of(e)->Ok_0;
            a_column_answers_its_own_question(groups, text, condition, guard);
            assert(x.args =~= Seq::<ExprView>::empty());
        } else {
            let guards = Seq::new(e.args.len(), |j: int| arg_guard(e, j, guard));
            labelling_leaves_no_call_in_any(e.args, guards, groups);
        }
    }
}

proof fn labelling_leaves_no_call_in_any(
    args: Seq<ExprView>,
    guards: Seq<Option<ExprView>>,
    groups: Seq<GroupView>,
)
    ensures
        labelled_all(args, guards, groups) matches Ok((x, now)) ==> !any_calls(x, MEANS_UDF_NAME@)
            && go_on(groups, now),
    decreases args,
{
    if labelled_all(args, guards, groups) is Ok {
        if args.len() == 0 {
            assert forall|g: int| 0 <= g < groups.len() implies groups[g].conditions.is_prefix_of(
                #[trigger] groups[g].conditions,
            ) by {
                assert(groups[g].conditions.subrange(0, groups[g].conditions.len() as int)
                    =~= groups[g].conditions);
            }
        } else {
            labelling_leaves_no_call_in_any(args.drop_last(), guards, groups);
            let (before, then) = labelled_all(args.drop_last(), guards, groups)->Ok_0;
            labelling_leaves_no_call(args.last(), guards[args.len() - 1], then);
            let (x, now) = labelled_all(args, guards, groups)->Ok_0;
            assert(x.drop_last() =~= before);
            lemma_go_on(groups, then, now);
        }
    }
}

/// Whether a guard lets a row through, by which conditions are true of the row.
pub open spec fn lets(guard: ExprView, truth: spec_fn(ExprView) -> bool) -> bool
    decreases guard,
{
    if guard.head is And && guard.args.len() == 2 {
        lets(guard.args[0], truth) && lets(guard.args[1], truth)
    } else if guard.head is IsNotTrue && guard.args.len() == 1 {
        !truth(guard.args[0])
    } else {
        truth(guard)
    }
}

/// Whether an optional guard lets a row through.
pub open spec fn admits(guard: Option<ExprView>, truth: spec_fn(ExprView) -> bool) -> bool {
    match guard {
        Some(guard) => lets(guard, truth),
        None => true,
    }
}

proof fn lemma_lets_leading(args: Seq<ExprView>, n: nat, truth: spec_fn(ExprView) -> bool)
    ensures
        admits(conjoined(leading(args, n)), truth) <==> forall|k: int|
            0 <= k < n ==> !truth(#[trigger] args[2 * k]),
    decreases n,
{
    if n > 0 {
        let m = (n - 1) as nat;
        lemma_lets_leading(args, m, truth);
        assert(leading(args, n).drop_last() =~= leading(args, m));
        let last = leading(args, n).last();
        assert(last == not_true(args[2 * m as int]));
        assert(lets(last, truth) == !truth(args[2 * m as int]));
        match conjoined(leading(args, m)) {
            None => {},
            Some(before) => {
                let pair = both(before, last);
                assert(pair.args[0] == before);
                assert(pair.args[1] == last);
                assert(lets(pair, truth) == (lets(before, truth) && lets(last, truth)));
            },
        }
    }
}

/// The guard of a `CASE` lets exactly those rows through that reach its first
/// `MEANS` branch: those that the outer guard lets through, and that no ordinary
/// condition before that branch claimed.
pub proof fn a_guard_admits_the_unclaimed_rows(
    e: ExprView,
    branches: nat,
    outer: Option<ExprView>,
    truth: spec_fn(ExprView) -> bool,
)
    requires
        e.head matches HeadView::Case { base: false, branches: b, .. } && b == branches,
    ensures
        admits(case_guard_of(e, outer), truth) <==> admits(outer, truth) && forall|k: int|
            0 <= k < leading_count(e.args, branches, 0) ==> !truth(#[trigger] e.args[2 * k]),
{
    let n = leading_count(e.args, branches, 0);
    lemma_lets_leading(e.args, n, truth);
    let own = conjoined(leading(e.args, n));
    if outer is Some && own is Some {
        let pair = both(outer->0, own->0);
        assert(pair.args[0] == outer->0);
        assert(pair.args[1] == own->0);
        assert(lets(pair, truth) == (lets(outer->0, truth) && lets(own->0, truth)));
    }
}

/// The nodes of some groups stand one above another over the input: each asks its
/// own conditions of its own text, under its own guard where it has one, and has its
/// own number; and below them all is the input, unchanged.
pub proof fn groups_stand_over_the_input(groups: Seq<GroupView>, input: PlanView, i: int)
    ensures
        beneath(classified(groups, input), groups.len()) == input,
        0 <= i < groups.len() ==> {
            let node = beneath(classified(groups, input), (groups.len() - 1 - i) as nat);
            &&& node.op == (OpView::SemClassify {
                conditions: groups[i].conditions,
                guarded: groups[i].guard is Some,
                id: i as nat,
            })
            &&& node.exprs[0] == groups[i].text
            &&& groups[i].guard is Some ==> node.exprs.len() == 2 && node.exprs[1]
                == groups[i].guard->0
            &&& groups[i].guard is None ==> node.exprs.len() == 1
        },
    decreases groups.len(),
{
    if groups.len() > 0 {
        let fewer = groups.drop_last();
        groups_stand_over_the_input(fewer, input, i);
        let all = classified(groups, input);
        assert(all.inputs[0] == classified(fewer, input));
        if 0 <= i < fewer.len() {
            assert(fewer[i] == groups[i]);
            assert(beneath(all, (groups.len() - 1 - i) as nat) == beneath(
                all.inputs[0],
                (fewer.len() - 1 - i) as nat,
            ));
        }
    }
}

/// A call in a `SELECT` list becomes the column of its own question: that of a
/// group about the call's text, under the guard that the call stands under, at the
/// place of the call's condition.
pub proof fn a_call_reads_the_column_of_its_question(
    e: ExprView,
    guard: Option<ExprView>,
    groups: Seq<GroupView>,
    condition: Seq<char>,
)
    requires
        is_call(e, MEANS_UDF_NAME@),
        e.args.len() == 2,
        e.args[1].head == HeadView::Text(condition),
    ensures
        labelled(e, guard, groups) is Ok,
        ({
            let (x, now) = labelled(e, guard, groups)->Ok_0;
            exists|g: int, b: int|
                0 <= g < now.len() && 0 <= b < now[g].conditions.len() && x == column_ref(
                    #[trigger] branch_name(g as nat, b as nat),
                ) && now[g].text == e.args[0] && now[g].guard == guard && now[g].conditions[b]
                    == condition
        }),
{
    a_call_asks_what_it_says(e);
    a_column_answers_its_own_question(groups, e.args[0], condition, guard);
    let (now, g, b) = registered(groups, e.args[0], condition, guard);
    assert(labelled(e, guard, groups)->Ok_0 == (
        column_ref(branch_name(g as nat, b as nat)),
        now,
    ));
}

/// The leading branches of a `CASE` are those before the first whose `WHEN` asks the
/// model.
pub proof fn leading_branches_ask_no_model(args: Seq<ExprView>, branches: nat, k: nat)
    requires
        k <= branches,
        2 * branches <= args.len(),
    ensures
        k <= leading_count(args, branches, k) <= branches,
        forall|i: int|
            k <= i < leading_count(args, branches, k) ==> !calls(
                #[trigger] args[2 * i],
                MEANS_UDF_NAME@,
            ),
        leading_count(args, branches, k) < branches ==> calls(
            args[2 * leading_count(args, branches, k) as int],
            MEANS_UDF_NAME@,
        ),
    decreases branches - k,
{
    if k < branches && !calls(args[2 * k as int], MEANS_UDF_NAME@) {
        leading_branches_ask_no_model(args, branches, k + 1);
    }
}

/// Only a `WHEN` that asks the model is held back: every other argument is evaluated
/// under the guard that the whole expression is.
pub proof fn only_a_when_is_held_back(e: ExprView, j: int, guard: Option<ExprView>)
    ensures
        !(e.head is Case) ==> arg_guard(e, j, guard) == guard,
        0 <= j < e.args.len() && !calls(e.args[j], MEANS_UDF_NAME@) ==> arg_guard(e, j, guard)
            == guard,
        e.head matches HeadView::Case { base: false, branches, .. } ==> j % 2 == 1 ==> arg_guard(
            e,
            j,
            guard,
        ) == guard,
{
}

}
