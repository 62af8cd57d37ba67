//! Rewrites a filter on `means(text, 'condition')` into semantic filter nodes.

use vstd::prelude::*;

use crate::logical::expr::{
    any_call, any_calls, both, calls, conjoined, conjunction, conjuncts, conjuncts_of, expr_views,
    is_call, split_conjunction, Expr, ExprView, Head, HeadView,
};
use crate::logical::plan::{
    node_formed, plan_views, tells, Op, OpView, Outcome, Plan, PlanError, PlanErrorView, PlanView,
    Transformed,
};
use crate::optimizer::attach::{
    attach_plan, attached, attached_all, attached_plan, is_bare, lemma_plan_attached,
    number_literal, plan_has_bare,
};
use crate::optimizer::markers::beneath;
use crate::text::{decimal, decimal_of};

verus! {

/// The name of the semantic predicate.
pub const MEANS_UDF_NAME: &'static str = "means";

pub const NOT_A_CONJUNCT: &'static str =
    "means() is only supported as a top-level AND conjunct of a WHERE clause; it cannot appear under OR, NOT, or inside another expression";

pub const FOUND_IN: &'static str =
    "means() is only supported as a top-level AND conjunct of a WHERE clause (found it in a ";

pub const NODE: &'static str = " node)";

pub const NO_MEANS: &'static str = "WITH RECALL requires a MEANS in the statement";

pub const NOT_A_LITERAL: &'static str =
    "the second argument of means() must be a string literal (the natural-language condition), got: ";

/// Finds `means(..)` calls inside filter predicates, splits them out of the
/// conjunction (the free predicates stay in a filter below, which the optimizer
/// will keep pushing down), and stacks a semantic filter on top for each.
///
/// `means()` is only supported as a top-level `AND` conjunct of a `WHERE`
/// clause with a string-literal condition. Anywhere else is an error at plan
/// time rather than a silent model call per row.
#[derive(Debug)]
pub struct MeansRewriteRule;

/// What a `means()` call asks: a condition of a text, under the recall target
/// that a `WITH RECALL` attached, by its bits.
pub struct AskedView {
    pub text: ExprView,
    pub condition: Seq<char>,
    pub recall: Option<u64>,
}

/// The recall target that a `WITH RECALL` attached to a call, by its bits.
pub open spec fn recall_of(call: ExprView) -> Option<u64> {
    if call.args.len() == 3 {
        match call.args[2].head {
            HeadView::Real(double, _) => Some(double),
            _ => None,
        }
    } else {
        None
    }
}

/// What a `means()` call asks, or why it asks nothing. A user writes two
/// arguments; a third is the recall target.
pub open spec fn destructured(call: ExprView) -> Result<AskedView, PlanErrorView> {
    if call.args.len() != 2 && recall_of(call) is None {
        Err(
            PlanErrorView::Plan(
                "means() takes exactly 2 arguments, got "@ + decimal(call.args.len()),
            ),
        )
    } else {
        match call.args[1].head {
            HeadView::Text(condition) => Ok(
                AskedView { text: call.args[0], condition, recall: recall_of(call) },
            ),
            _ => Err(PlanErrorView::Got(NOT_A_LITERAL@, call.args[1])),
        }
    }
}

/// A semantic filter over a plan.
pub open spec fn sem_filter(
    input: PlanView,
    text: ExprView,
    condition: Seq<char>,
    recall: Option<u64>,
) -> PlanView {
    PlanView {
        op: OpView::SemFilter { condition, recall },
        exprs: seq![text],
        inputs: seq![input],
    }
}

/// One semantic filter per call, stacked above a plan in their order; or why
/// one cannot be.
pub open spec fn filtered(calls: Seq<ExprView>, input: PlanView) -> Result<PlanView, PlanErrorView>
    decreases calls.len(),
{
    if calls.len() == 0 {
        Ok(input)
    } else {
        match filtered(calls.drop_last(), input) {
            Err(err) => Err(err),
            Ok(below) => match destructured(calls.last()) {
                Err(err) => Err(err),
                Ok(asked) => Ok(sem_filter(below, asked.text, asked.condition, asked.recall)),
            },
        }
    }
}

/// The calls among some conditions.
pub open spec fn semantic_of(conditions: Seq<ExprView>) -> Seq<ExprView> {
    conditions.filter(|e: ExprView| is_call(e, MEANS_UDF_NAME@))
}

/// The conditions among some that are no calls.
pub open spec fn free_of(conditions: Seq<ExprView>) -> Seq<ExprView> {
    conditions.filter(|e: ExprView| !is_call(e, MEANS_UDF_NAME@))
}

/// The plan with its free conditions in a filter above it, where there are any.
pub open spec fn over_free(free: Seq<ExprView>, input: PlanView) -> PlanView {
    match conjoined(free) {
        Some(predicate) => PlanView {
            op: OpView::Filter,
            exprs: seq![predicate],
            inputs: seq![input],
        },
        None => input,
    }
}

/// What the rule makes of a plan node.
pub open spec fn means_outcome(plan: PlanView) -> Outcome {
    if !(plan.op is Filter) {
        if any_calls(plan.exprs, MEANS_UDF_NAME@) {
            Outcome::Refused(PlanErrorView::Around(FOUND_IN@, NODE@))
        } else {
            Outcome::Unchanged
        }
    } else {
        let predicate = plan.exprs[0];
        let conditions = conjuncts(predicate);
        let semantic = semantic_of(conditions);
        let free = free_of(conditions);
        if semantic.len() == 0 {
            if calls(predicate, MEANS_UDF_NAME@) {
                Outcome::Refused(PlanErrorView::Plan(NOT_A_CONJUNCT@))
            } else {
                Outcome::Unchanged
            }
        } else if any_calls(free, MEANS_UDF_NAME@) {
            Outcome::Refused(PlanErrorView::Plan(NOT_A_CONJUNCT@))
        } else {
            match filtered(semantic, over_free(free, plan.inputs[0])) {
                Ok(p) => Outcome::Changed(p),
                Err(err) => Outcome::Refused(err),
            }
        }
    }
}

/// What a `means(..)` call asks.
#[derive(Debug)]
pub struct Asked {
    pub text: Expr,
    pub condition: String,
    /// The recall target of the statement, by its bits.
    pub recall: Option<u64>,
}

impl View for Asked {
    type V = AskedView;

    open spec fn view(&self) -> AskedView {
        AskedView { text: self.text@, condition: self.condition@, recall: self.recall }
    }
}

/// Pulls the text, the condition and the recall target out of a `means(..)`
/// call.
pub fn destructure_means(call: &Expr) -> (r: Result<Asked, PlanError>)
    ensures
        match r {
            Ok(asked) => destructured(call@) == Ok::<AskedView, PlanErrorView>(asked@),
            Err(e) => destructured(call@) == Err::<AskedView, PlanErrorView>(e@),
        },
{
    let n: usize = call.args.len();
    assert(call@.args.len() == n);
    let mut recall: Option<u64> = None;
    if n == 3 {
        assert(call@.args[2] == call.args@[2]@);
        if let Head::Real(double, _) = &call.args[2].head {
            recall = Some(*double);
        }
    }
    if n != 2 && recall.is_none() {
        return Err(
            PlanError::Plan(
                "means() takes exactly 2 arguments, got ".to_owned().concat(
                    decimal_of(n as u64).as_str(),
                ),
            ),
        );
    }
    assert(call@.args[0] == call.args@[0]@);
    assert(call@.args[1] == call.args@[1]@);
    match &call.args[1].head {
        Head::Text(condition) => Ok(
            Asked { text: call.args[0].copy(), condition: condition.clone(), recall },
        ),
        _ => Err(PlanError::Got(NOT_A_LITERAL.to_owned(), call.args[1].copy())),
    }
}

proof fn lemma_filtered_error(calls: Seq<ExprView>, n: int, input: PlanView)
    requires
        0 <= n <= calls.len(),
        filtered(calls.take(n), input) is Err,
    ensures
        filtered(calls, input) == filtered(calls.take(n), input),
    decreases calls.len(),
{
    if n == calls.len() {
        assert(calls.take(n) == calls);
    } else {
        assert(calls.drop_last().take(n) == calls.take(n));
        lemma_filtered_error(calls.drop_last(), n, input);
    }
}

/// Splits some conditions into the calls and the others.
fn partition(conditions: Vec<Expr>) -> (r: (Vec<Expr>, Vec<Expr>))
    ensures
        expr_views(r.0@) == semantic_of(expr_views(conditions@)),
        expr_views(r.1@) == free_of(expr_views(conditions@)),
{
    let ghost all = expr_views(conditions@);
    let mut semantic: Vec<Expr> = Vec::new();
    let mut free: Vec<Expr> = Vec::new();
    let mut i: usize = 0;
    proof {
        reveal(Seq::filter);
        assert(expr_views(semantic@) =~= semantic_of(all.take(0)));
        assert(expr_views(free@) =~= free_of(all.take(0)));
    }
    while i < conditions.len()
        invariant
            i <= conditions.len(),
            all == expr_views(conditions@),
            expr_views(semantic@) == semantic_of(all.take(i as int)),
            expr_views(free@) == free_of(all.take(i as int)),
        decreases conditions.len() - i,
    {
        let e = &conditions[i];
        proof {
            reveal(Seq::filter);
            assert(all.take(i + 1).drop_last() == all.take(i as int));
            assert(all.take(i + 1).last() == e@);
        }
        let ghost before_semantic = expr_views(semantic@);
        let ghost before_free = expr_views(free@);
        if e.is_call_of(MEANS_UDF_NAME) {
            semantic.push(e.copy());
            assert(expr_views(semantic@) =~= before_semantic.push(e@));
        } else {
            free.push(e.copy());
            assert(expr_views(free@) =~= before_free.push(e@));
        }
        i += 1;
    }
    assert(all.take(i as int) == all);
    (semantic, free)
}

/// Stacks one semantic filter per call above a plan.
fn stack_filters(calls: &Vec<Expr>, input: Plan) -> (r: Result<Plan, PlanError>)
    ensures
        match r {
            Ok(p) => filtered(expr_views(calls@), input@) == Ok::<PlanView, PlanErrorView>(p@),
            Err(e) => filtered(expr_views(calls@), input@) == Err::<PlanView, PlanErrorView>(e@),
        },
{
    let ghost all = expr_views(calls@);
    let ghost start = input@;
    let mut plan = input;
    let mut i: usize = 0;
    while i < calls.len()
        invariant
            i <= calls.len(),
            all == expr_views(calls@),
            start == input@,
            filtered(all.take(i as int), start) == Ok::<PlanView, PlanErrorView>(plan@),
        decreases calls.len() - i,
    {
        assert(all.take(i + 1).drop_last() == all.take(i as int));
        assert(all.take(i + 1).last() == calls@[i as int]@);
        match destructure_means(&calls[i]) {
            Err(err) => {
                proof {
                    lemma_filtered_error(all, i + 1, start);
                }
                return Err(err);
            },
            Ok(Asked { text, condition, recall }) => {
                let ghost below = plan@;
                let mut exprs: Vec<Expr> = Vec::new();
                exprs.push(text);
                let mut inputs: Vec<Plan> = Vec::new();
                inputs.push(plan);
                plan = Plan { op: Op::SemFilter { condition, recall }, exprs, inputs };
                assert(expr_views(plan.exprs@) =~= seq![text@]);
                assert(plan_views(plan.inputs@) =~= seq![below]);
            },
        }
        i += 1;
    }
    assert(all.take(i as int) == all);
    Ok(plan)
}

impl MeansRewriteRule {
    /// The name that the optimizer logs the rule under.
    pub fn name(&self) -> (r: &'static str)
        ensures
            r@ == "semcast_means_rewrite"@,
    {
        "semcast_means_rewrite"
    }

    /// Rewrites one node of a plan, its inputs having been rewritten before.
    pub fn rewrite(&self, plan: Plan) -> (r: Result<Transformed, PlanError>)
        requires
            node_formed(plan@),
            plan@.op is Filter ==> plan.exprs.len() == 1,
        ensures
            tells(r, plan@, means_outcome(plan@)),
    {
        let is_filter: bool = match &plan.op {
            Op::Filter => true,
            _ => false,
        };
        assert(plan@.exprs.subrange(0, plan.exprs@.len() as int) =~= plan@.exprs);
        if !is_filter {
            if any_call(&plan.exprs, 0, plan.exprs.len(), MEANS_UDF_NAME) {
                return Err(PlanError::Around(FOUND_IN.to_owned(), NODE.to_owned()));
            }
            return Ok(Transformed { plan, changed: false });
        }
        assert(plan@.exprs[0] == plan.exprs@[0]@);
        assert(plan@.inputs.len() == plan.inputs@.len());
        assert(plan@.inputs[0] == plan.inputs@[0]@);
        let mut conditions: Vec<Expr> = Vec::new();
        assert(expr_views(conditions@) =~= Seq::<ExprView>::empty());
        split_conjunction(&plan.exprs[0], &mut conditions);
        assert(Seq::<ExprView>::empty() + conjuncts(plan@.exprs[0]) =~= conjuncts(plan@.exprs[0]));
        let (semantic, free) = partition(conditions);
        assert(expr_views(free@).subrange(0, free@.len() as int) =~= expr_views(free@));
        if semantic.len() == 0 {
            if plan.exprs[0].contains_call(MEANS_UDF_NAME) {
                return Err(PlanError::Plan(NOT_A_CONJUNCT.to_owned()));
            }
            return Ok(Transformed { plan, changed: false });
        }
        assert(expr_views(semantic@).len() == semantic@.len());
        if any_call(&free, 0, free.len(), MEANS_UDF_NAME) {
            return Err(PlanError::Plan(NOT_A_CONJUNCT.to_owned()));
        }
        let Plan { op, exprs, inputs } = plan;
        let mut inputs = inputs;
        match inputs.pop() {
            None => Err(PlanError::Plan(NOT_A_CONJUNCT.to_owned())),
            Some(input) => {
                let ghost below = input@;
                let over = match conjunction(&free) {
                    Some(predicate) => {
                        let mut held: Vec<Expr> = Vec::new();
                        held.push(predicate);
                        let mut under: Vec<Plan> = Vec::new();
                        under.push(input);
                        assert(expr_views(held@) =~= seq![predicate@]);
                        assert(plan_views(under@) =~= seq![below]);
                        Plan { op: Op::Filter, exprs: held, inputs: under }
                    },
                    None => input,
                };
                assert(over@ == over_free(expr_views(free@), below));
                match stack_filters(&semantic, over) {
                    Ok(plan) => Ok(Transformed { plan, changed: true }),
                    Err(err) => Err(err),
                }
            },
        }
    }
}

/// What is true of a row: what the model says of a text and a condition, and
/// which other conditions hold.
pub struct Row {
    pub verdict: spec_fn(ExprView, Seq<char>) -> bool,
    pub truth: spec_fn(ExprView) -> bool,
}

impl Row {
    /// Whether a single condition holds.
    pub open spec fn meets(self, e: ExprView) -> bool {
        if is_call(e, MEANS_UDF_NAME@) {
            match destructured(e) {
                Ok(asked) => (self.verdict)(asked.text, asked.condition),
                Err(_) => false,
            }
        } else {
            (self.truth)(e)
        }
    }

    /// Whether a predicate holds: a conjunction does where all of it does.
    pub open spec fn satisfies(self, e: ExprView) -> bool
        decreases e,
    {
        if e.head is And || e.head is Alias {
            self.satisfies_all(e.args)
        } else {
            self.meets(e)
        }
    }

    /// Whether some predicates all hold.
    pub open spec fn satisfies_all(self, args: Seq<ExprView>) -> bool
        decreases args,
    {
        args.len() == 0 || (self.satisfies_all(args.drop_last()) && self.satisfies(args.last()))
    }

    /// Whether the row gets through the uppermost `n` nodes of a plan.
    pub open spec fn passes(self, p: PlanView, n: nat) -> bool
        decreases n,
    {
        n == 0 || match p.op {
            OpView::Filter => self.satisfies(p.exprs[0]) && self.passes(
                p.inputs[0],
                (n - 1) as nat,
            ),
            OpView::SemFilter { condition, .. } => (self.verdict)(p.exprs[0], condition)
                && self.passes(p.inputs[0], (n - 1) as nat),
            _ => false,
        }
    }

    /// Whether some single conditions all hold.
    pub open spec fn meets_all(self, conditions: Seq<ExprView>) -> bool {
        forall|i: int| 0 <= i < conditions.len() ==> self.meets(#[trigger] conditions[i])
    }

    proof fn lemma_conjuncts(self, e: ExprView)
        ensures
            self.satisfies(e) <==> self.meets_all(conjuncts(e)),
            forall|i: int|
                0 <= i < conjuncts(e).len() ==> !((#[trigger] conjuncts(e)[i]).head is And) && !(
                conjuncts(e)[i].head is Alias),
        decreases e,
    {
        if e.head is And || e.head is Alias {
            self.lemma_conjuncts_of(e.args);
        } else {
            assert(conjuncts(e)[0] == e);
        }
    }

    proof fn lemma_conjuncts_of(self, args: Seq<ExprView>)
        ensures
            self.satisfies_all(args) <==> self.meets_all(conjuncts_of(args)),
            forall|i: int|
                0 <= i < conjuncts_of(args).len() ==> !((#[trigger] conjuncts_of(args)[i]).head
                    is And) && !(conjuncts_of(args)[i].head is Alias),
        decreases args,
    {
        if args.len() > 0 {
            let before = conjuncts_of(args.drop_last());
            let last = conjuncts(args.last());
            let all = conjuncts_of(args);
            self.lemma_conjuncts_of(args.drop_last());
            self.lemma_conjuncts(args.last());
            assert(all == before + last);
            if self.meets_all(all) {
                assert forall|i: int| 0 <= i < before.len() implies self.meets(
                    #[trigger] before[i],
                ) by {
                    assert(all[i] == before[i]);
                }
                assert forall|i: int| 0 <= i < last.len() implies self.meets(
                    #[trigger] last[i],
                ) by {
                    assert(all[before.len() + i] == last[i]);
                }
            }
        }
    }

    proof fn lemma_conjoined(self, free: Seq<ExprView>)
        requires
            forall|i: int|
                0 <= i < free.len() ==> !((#[trigger] free[i]).head is And) && !(free[i].head
                    is Alias),
        ensures
            conjoined(free) matches Some(e) ==> (self.satisfies(e) <==> self.meets_all(free)),
            conjoined(free) is None <==> free.len() == 0,
        decreases free.len(),
    {
        if free.len() > 0 {
            let rest = free.drop_last();
            assert forall|i: int| 0 <= i < rest.len() implies !((#[trigger] rest[i]).head is And)
                && !(rest[i].head is Alias) by {
                assert(rest[i] == free[i]);
            }
            self.lemma_conjoined(rest);
            let last = free.last();
            assert(self.satisfies(last) == self.meets(last));
            assert(self.meets_all(free) <==> self.meets_all(rest) && self.meets(last)) by {
                if self.meets_all(free) {
                    assert forall|i: int| 0 <= i < rest.len() implies self.meets(
                        #[trigger] rest[i],
                    ) by {
                        assert(rest[i] == free[i]);
                    }
                }
                if self.meets_all(rest) && self.meets(last) {
                    assert forall|i: int| 0 <= i < free.len() implies self.meets(
                        #[trigger] free[i],
                    ) by {
                        if i < rest.len() {
                            assert(rest[i] == free[i]);
                        }
                    }
                }
            }
            match conjoined(rest) {
                None => {},
                Some(before) => {
                    let pair = both(before, last);
                    assert(pair.args.drop_last() =~= seq![before]);
                    assert(seq![before].drop_last() =~= Seq::<ExprView>::empty());
                    assert(pair.args.last() == last);
                    assert(seq![before].last() == before);
                    reveal_with_fuel(Row::satisfies_all, 3);
                    assert(self.satisfies(pair) == self.satisfies_all(pair.args));
                    assert(self.satisfies_all(pair.args) == (self.satisfies_all(seq![before])
                        && self.satisfies(last)));
                    assert(self.satisfies_all(seq![before]) == self.satisfies(before));
                },
            }
        }
    }

    proof fn lemma_filtered(self, calls: Seq<ExprView>, input: PlanView, n: nat)
        requires
            filtered(calls, input) is Ok,
            forall|i: int|
                0 <= i < calls.len() ==> is_call(#[trigger] calls[i], MEANS_UDF_NAME@),
        ensures
            self.passes(filtered(calls, input)->Ok_0, calls.len() + n) <==> self.meets_all(calls)
                && self.passes(input, n),
        decreases calls.len(),
    {
        if calls.len() > 0 {
            let rest = calls.drop_last();
            let last = calls.last();
            assert forall|i: int| 0 <= i < rest.len() implies is_call(
                #[trigger] rest[i],
                MEANS_UDF_NAME@,
            ) by {
                assert(rest[i] == calls[i]);
            }
            assert(is_call(calls[calls.len() - 1], MEANS_UDF_NAME@));
            self.lemma_filtered(rest, input, n);
            assert(self.meets_all(calls) <==> self.meets_all(rest) && self.meets(last)) by {
                if self.meets_all(calls) {
                    assert forall|i: int| 0 <= i < rest.len() implies self.meets(
                        #[trigger] rest[i],
                    ) by {
                        assert(rest[i] == calls[i]);
                    }
                }
                if self.meets_all(rest) && self.meets(last) {
                    assert forall|i: int| 0 <= i < calls.len() implies self.meets(
                        #[trigger] calls[i],
                    ) by {
                        if i < rest.len() {
                            assert(rest[i] == calls[i]);
                        }
                    }
                }
            }
        }
    }
}

proof fn lemma_filter_source(conditions: Seq<ExprView>, keep: spec_fn(ExprView) -> bool, i: int)
    requires
        0 <= i < conditions.filter(keep).len(),
    ensures
        conditions.contains(conditions.filter(keep)[i]),
    decreases conditions.len(),
{
    reveal(Seq::filter);
    if conditions.len() > 0 {
        let rest = conditions.drop_last();
        let last = conditions.last();
        if i < rest.filter(keep).len() {
            lemma_filter_source(rest, keep, i);
            let k = choose|k: int| 0 <= k < rest.len() && rest[k] == rest.filter(keep)[i];
            assert(conditions[k] == rest[k]);
            assert(conditions.filter(keep)[i] == rest.filter(keep)[i]);
        } else {
            assert(conditions[conditions.len() - 1] == conditions.filter(keep)[i]);
        }
    }
}

/// How many filters a rewritten filter stands as.
pub open spec fn filters_of(predicate: ExprView) -> nat {
    let conditions = conjuncts(predicate);
    semantic_of(conditions).len() + if free_of(conditions).len() == 0 {
        0nat
    } else {
        1nat
    }
}

/// A row gets through a rewritten filter exactly where its predicate holds.
pub proof fn a_rewritten_filter_keeps_the_same_rows(plan: PlanView, row: Row)
    requires
        plan.op is Filter,
        means_outcome(plan) is Changed,
    ensures
        row.passes(means_outcome(plan)->Changed_0, filters_of(plan.exprs[0])) <==> row.satisfies(
            plan.exprs[0],
        ),
{
    let predicate = plan.exprs[0];
    let conditions = conjuncts(predicate);
    let semantic = semantic_of(conditions);
    let free = free_of(conditions);
    let is_sem = |e: ExprView| is_call(e, MEANS_UDF_NAME@);
    let is_free = |e: ExprView| !is_call(e, MEANS_UDF_NAME@);
    row.lemma_conjuncts(predicate);
    conditions.filter_lemma(is_sem);
    conditions.filter_lemma(is_free);
    assert forall|i: int| 0 <= i < semantic.len() implies is_call(
        #[trigger] semantic[i],
        MEANS_UDF_NAME@,
    ) by {
        assert(is_sem(semantic[i]));
    }
    assert forall|i: int| 0 <= i < free.len() implies !((#[trigger] free[i]).head is And) && !(
    free[i].head is Alias) by {
        lemma_filter_source(conditions, is_free, i);
        let k = choose|k: int| 0 <= k < conditions.len() && conditions[k] == free[i];
        assert(!(conditions[k].head is And));
    }
    assert(row.meets_all(conditions) <==> row.meets_all(semantic) && row.meets_all(free)) by {
        if row.meets_all(conditions) {
            assert forall|i: int| 0 <= i < semantic.len() implies row.meets(
                #[trigger] semantic[i],
            ) by {
                lemma_filter_source(conditions, is_sem, i);
            }
            assert forall|i: int| 0 <= i < free.len() implies row.meets(#[trigger] free[i]) by {
                lemma_filter_source(conditions, is_free, i);
            }
        }
        if row.meets_all(semantic) && row.meets_all(free) {
            assert forall|i: int| 0 <= i < conditions.len() implies row.meets(
                #[trigger] conditions[i],
            ) by {
                if is_sem(conditions[i]) {
                    assert(semantic.contains(conditions[i]));
                } else {
                    assert(is_free(conditions[i]));
                    assert(free.contains(conditions[i]));
                }
            }
        }
    }
    let below = over_free(free, plan.inputs[0]);
    let n = if free.len() == 0 {
        0nat
    } else {
        1nat
    };
    row.lemma_conjoined(free);
    assert(row.passes(below, n) <==> row.meets_all(free)) by {
        reveal_with_fuel(Row::passes, 2);
    }
    row.lemma_filtered(semantic, below, n);
}

/// Attaches a statement's `WITH RECALL` to every `means()` call in the plan, as a
/// third literal argument that the rewrite reads back out. No call at all is a
/// user's mistake. The target is given by its bits, and by those of the nearest
/// single-precision number.
pub fn apply_recall(plan: Plan, double: u64, single: u32) -> (r: Result<Plan, PlanError>)
    ensures
        match r {
            Ok(p) => plan_has_bare(plan@, MEANS_UDF_NAME@, 2) && p@ == attached_plan(
                plan@,
                MEANS_UDF_NAME@,
                2,
                number_literal(double, single),
            ),
            Err(e) => !plan_has_bare(plan@, MEANS_UDF_NAME@, 2) && e@ == PlanErrorView::Plan(
                NO_MEANS@,
            ),
        },
{
    let (plan, found) = attach_plan(plan, MEANS_UDF_NAME, 2, double, single);
    if found {
        Ok(plan)
    } else {
        Err(PlanError::Plan(NO_MEANS.to_owned()))
    }
}

/// Once a recall target is attached, no `means()` call is without one.
pub proof fn every_call_has_a_recall_target(p: PlanView, double: u64, single: u32)
    ensures
        !plan_has_bare(
            attached_plan(p, MEANS_UDF_NAME@, 2, number_literal(double, single)),
            MEANS_UDF_NAME@,
            2,
        ),
{
    lemma_plan_attached(p, MEANS_UDF_NAME@, 2, double, single);
}

/// The recall targets of the uppermost `n` nodes of a plan, from the lowest up.
pub open spec fn recalls(p: PlanView, n: nat) -> Seq<Option<u64>>
    decreases n,
{
    if n == 0 {
        Seq::empty()
    } else {
        recalls(p.inputs[0], (n - 1) as nat).push(
            match p.op {
                OpView::SemFilter { recall, .. } => recall,
                _ => None,
            },
        )
    }
}

/// Attaching a number keeps what a predicate is a conjunction of.
proof fn lemma_attached_conjuncts(e: ExprView, lit: ExprView)
    ensures
        conjuncts(attached(e, MEANS_UDF_NAME@, 2, lit)) == attached_all(
            conjuncts(e),
            MEANS_UDF_NAME@,
            2,
            lit,
        ),
    decreases e,
{
    let name = MEANS_UDF_NAME@;
    if e.head is And || e.head is Alias {
        lemma_attached_conjuncts_of(e.args, lit);
    } else {
        assert(conjuncts(e) =~= seq![e]);
        assert(seq![e].drop_last() =~= Seq::<ExprView>::empty());
        assert(attached_all(Seq::<ExprView>::empty(), name, 2, lit) =~= Seq::<ExprView>::empty());
        assert(attached_all(seq![e], name, 2, lit) =~= seq![attached(e, name, 2, lit)]);
    }
}

proof fn lemma_attached_conjuncts_of(args: Seq<ExprView>, lit: ExprView)
    ensures
        conjuncts_of(attached_all(args, MEANS_UDF_NAME@, 2, lit)) == attached_all(
            conjuncts_of(args),
            MEANS_UDF_NAME@,
            2,
            lit,
        ),
    decreases args,
{
    let name = MEANS_UDF_NAME@;
    if args.len() > 0 {
        let before = args.drop_last();
        lemma_attached_conjuncts_of(before, lit);
        lemma_attached_conjuncts(args.last(), lit);
        let all = attached_all(args, name, 2, lit);
        assert(all.drop_last() =~= attached_all(before, name, 2, lit));
        assert(all.last() == attached(args.last(), name, 2, lit));
        lemma_attached_sum(conjuncts_of(before), conjuncts(args.last()), lit);
    }
}

proof fn lemma_attached_sum(a: Seq<ExprView>, b: Seq<ExprView>, lit: ExprView)
    ensures
        attached_all(a + b, MEANS_UDF_NAME@, 2, lit) == attached_all(a, MEANS_UDF_NAME@, 2, lit)
            + attached_all(b, MEANS_UDF_NAME@, 2, lit),
    decreases b.len(),
{
    if b.len() == 0 {
        assert(a + b =~= a);
    } else {
        assert((a + b).drop_last() =~= a + b.drop_last());
        lemma_attached_sum(a, b.drop_last(), lit);
    }
}

/// Attaching a number keeps which conditions are calls.
proof fn lemma_attached_semantic(conditions: Seq<ExprView>, lit: ExprView)
    ensures
        semantic_of(attached_all(conditions, MEANS_UDF_NAME@, 2, lit)) == attached_all(
            semantic_of(conditions),
            MEANS_UDF_NAME@,
            2,
            lit,
        ),
    decreases conditions.len(),
{
    reveal(Seq::filter);
    let name = MEANS_UDF_NAME@;
    let all = attached_all(conditions, name, 2, lit);
    if conditions.len() > 0 {
        let rest = conditions.drop_last();
        lemma_attached_semantic(rest, lit);
        assert(all.drop_last() =~= attached_all(rest, name, 2, lit));
        assert(all.last() == attached(conditions.last(), name, 2, lit));
        if is_call(conditions.last(), name) {
            assert(semantic_of(conditions) =~= semantic_of(rest).push(conditions.last()));
            assert(semantic_of(conditions).drop_last() =~= semantic_of(rest));
        }
    }
}

proof fn lemma_filtered_recalls(calls: Seq<ExprView>, input: PlanView, double: u64, single: u32)
    requires
        forall|i: int| 0 <= i < calls.len() ==> is_bare(#[trigger] calls[i], MEANS_UDF_NAME@, 2),
        filtered(
            attached_all(calls, MEANS_UDF_NAME@, 2, number_literal(double, single)),
            input,
        ) is Ok,
    ensures
        ({
            let lit = number_literal(double, single);
            let p = filtered(attached_all(calls, MEANS_UDF_NAME@, 2, lit), input)->Ok_0;
            recalls(p, calls.len()) == Seq::new(calls.len(), |i: int| Some(double))
        }),
    decreases calls.len(),
{
    let lit = number_literal(double, single);
    let name = MEANS_UDF_NAME@;
    let all = attached_all(calls, name, 2, lit);
    if calls.len() > 0 {
        let rest = calls.drop_last();
        assert forall|i: int| 0 <= i < rest.len() implies is_bare(#[trigger] rest[i], name, 2) by {
            assert(rest[i] == calls[i]);
        }
        assert(all.drop_last() =~= attached_all(rest, name, 2, lit));
        assert(is_bare(calls[calls.len() - 1], name, 2));
        let last = calls.last();
        lemma_attached_len(last.args, lit);
        assert(all.last() == attached(last, name, 2, lit));
        assert(last == calls[calls.len() - 1]);
        assert(all.last().args == attached_all(last.args, name, 2, lit).push(lit));
        assert(recall_of(all.last()) == Some(double));
        lemma_filtered_recalls(rest, input, double, single);
        let p = filtered(all, input)->Ok_0;
        assert(recalls(p, calls.len()) =~= Seq::new(calls.len(), |i: int| Some(double)));
    }
}

proof fn lemma_attached_len(args: Seq<ExprView>, lit: ExprView)
    ensures
        attached_all(args, MEANS_UDF_NAME@, 2, lit).len() == args.len(),
    decreases args.len(),
{
    if args.len() > 0 {
        lemma_attached_len(args.drop_last(), lit);
    }
}

/// The target of a `WITH RECALL` reaches every semantic filter: of a filter whose
/// calls had none, each semantic filter that it is rewritten into has it.
pub proof fn a_recall_target_reaches_every_filter(plan: PlanView, double: u64, single: u32)
    requires
        plan.op is Filter,
        plan.exprs.len() == 1,
        forall|i: int|
            0 <= i < semantic_of(conjuncts(plan.exprs[0])).len() ==> is_bare(
                #[trigger] semantic_of(conjuncts(plan.exprs[0]))[i],
                MEANS_UDF_NAME@,
                2,
            ),
        means_outcome(
            attached_plan(plan, MEANS_UDF_NAME@, 2, number_literal(double, single)),
        ) is Changed,
    ensures
        ({
            let given = attached_plan(plan, MEANS_UDF_NAME@, 2, number_literal(double, single));
            let n = semantic_of(conjuncts(plan.exprs[0])).len();
            recalls(means_outcome(given)->Changed_0, n) == Seq::new(n, |i: int| Some(double))
        }),
{
    let lit = number_literal(double, single);
    let name = MEANS_UDF_NAME@;
    let predicate = plan.exprs[0];
    let given = attached_plan(plan, name, 2, lit);
    assert(plan.exprs.drop_last() =~= Seq::<ExprView>::empty());
    assert(attached_all(plan.exprs.drop_last(), name, 2, lit).len() == 0);
    assert(plan.exprs.last() == predicate);
    assert(given.exprs[0] == attached(predicate, name, 2, lit));
    lemma_attached_conjuncts(predicate, lit);
    lemma_attached_semantic(conjuncts(predicate), lit);
    let semantic = semantic_of(conjuncts(predicate));
    let below = over_free(free_of(conjuncts(given.exprs[0])), given.inputs[0]);
    assert(semantic_of(conjuncts(given.exprs[0])) == attached_all(semantic, name, 2, lit));
    lemma_filtered_recalls(semantic, below, double, single);
}

/// A `means()` call asks what it says: whether its first argument meets the
/// condition that its second one spells out, under the recall target of the third,
/// where there is one. A call that is not of this form asks nothing.
pub proof fn a_call_asks_what_it_says(call: ExprView)
    ensures
        call.args.len() == 2 ==> (call.args[1].head matches HeadView::Text(condition)
            ==> destructured(call) == Ok::<AskedView, PlanErrorView>(
            AskedView { text: call.args[0], condition, recall: None },
        )),
        call.args.len() == 3 ==> (call.args[1].head matches HeadView::Text(condition) ==> (
        call.args[2].head matches HeadView::Real(double, _) ==> destructured(call) == Ok::<
            AskedView,
            PlanErrorView,
        >(AskedView { text: call.args[0], condition, recall: Some(double) }))),
        destructured(call) is Ok ==> 2 <= call.args.len() <= 3 && call.args[1].head is Text,
{
}

proof fn lemma_filtered_reads(calls: Seq<ExprView>, input: PlanView, i: int)
    requires
        filtered(calls, input) is Ok,
    ensures
        beneath(filtered(calls, input)->Ok_0, calls.len()) == input,
        0 <= i < calls.len() ==> {
            let node = beneath(filtered(calls, input)->Ok_0, (calls.len() - 1 - i) as nat);
            let asked = destructured(calls[i])->Ok_0;
            &&& destructured(calls[i]) is Ok
            &&& node.op == (OpView::SemFilter { condition: asked.condition, recall: asked.recall })
            &&& node.exprs == seq![asked.text]
            &&& node.inputs.len() == 1
        },
    decreases calls.len(),
{
    if calls.len() > 0 {
        let fewer = calls.drop_last();
        lemma_filtered_reads(fewer, input, i);
        let all = filtered(calls, input)->Ok_0;
        assert(all.inputs[0] == filtered(fewer, input)->Ok_0);
        if 0 <= i < fewer.len() {
            assert(fewer[i] == calls[i]);
            assert(beneath(all, (calls.len() - 1 - i) as nat) == beneath(
                all.inputs[0],
                (fewer.len() - 1 - i) as nat,
            ));
        }
    }
}

/// A rewritten filter reads the rows that it read before, through one semantic
/// filter for each of its calls, with the text and the condition of the call, and
/// through a filter of its free conditions, where it has any.
pub proof fn a_rewritten_filter_reads_the_same_rows(plan: PlanView, i: int)
    requires
        plan.op is Filter,
        means_outcome(plan) is Changed,
    ensures
        ({
            let p = means_outcome(plan)->Changed_0;
            let calls = semantic_of(conjuncts(plan.exprs[0]));
            &&& beneath(p, filters_of(plan.exprs[0])) == plan.inputs[0]
            &&& 0 <= i < calls.len() ==> {
                let node = beneath(p, (calls.len() - 1 - i) as nat);
                &&& node.exprs == seq![calls[i].args[0]]
                &&& node.inputs.len() == 1
                &&& node.op is SemFilter
                &&& calls[i].args[1].head == HeadView::Text(node.op->SemFilter_condition)
            }
        }),
{
    let p = means_outcome(plan)->Changed_0;
    let conditions = conjuncts(plan.exprs[0]);
    let calls = semantic_of(conditions);
    let free = free_of(conditions);
    let below = over_free(free, plan.inputs[0]);
    lemma_filtered_reads(calls, below, i);
    if 0 <= i < calls.len() {
        a_call_asks_what_it_says(calls[i]);
    }
    if free.len() > 0 {
        lemma_beneath_more(p, calls.len(), 1);
        assert(beneath(below, 1) == beneath(below.inputs[0], 0));
    }
}

proof fn lemma_beneath_more(p: PlanView, n: nat, m: nat)
    ensures
        beneath(p, n + m) == beneath(beneath(p, n), m),
    decreases n,
{
    if n > 0 {
        lemma_beneath_more(p.inputs[0], (n - 1) as nat, m);
    }
}

/// No call is left unplanned: a node that the rule leaves as it is holds no
/// `means()` call.
pub proof fn no_call_is_left_unplanned(plan: PlanView)
    requires
        plan.op is Filter ==> plan.exprs.len() == 1,
        means_outcome(plan) is Unchanged,
    ensures
        !any_calls(plan.exprs, MEANS_UDF_NAME@),
{
    if plan.op is Filter {
        assert(plan.exprs.drop_last() =~= Seq::<ExprView>::empty());
        assert(!any_calls(plan.exprs.drop_last(), MEANS_UDF_NAME@));
        assert(plan.exprs.last() == plan.exprs[0]);
    }
}

}
