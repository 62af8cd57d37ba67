//! Attaches a number that a statement gives once to every call of a function in
//! its plan, as one more literal argument that a rewrite reads back out.

use vstd::prelude::*;

use crate::logical::expr::{expr_views, is_call, Expr, ExprView, Head, HeadView};
use crate::logical::plan::{plan_views, Op, Plan, PlanView};

verus! {

/// A number as a literal: by its bits, and by those of the nearest
/// single-precision number.
pub open spec fn number_literal(double: u64, single: u32) -> ExprView {
    ExprView { head: HeadView::Real(double, single), args: Seq::empty() }
}

/// A call of a function with so many arguments: the number is still missing.
pub open spec fn is_bare(e: ExprView, name: Seq<char>, n: nat) -> bool {
    is_call(e, name) && e.args.len() == n
}

/// Whether such a call stands in an expression.
pub open spec fn has_bare(e: ExprView, name: Seq<char>, n: nat) -> bool
    decreases e,
{
    is_bare(e, name, n) || any_bare(e.args, name, n)
}

/// Whether such a call stands in some expressions.
pub open spec fn any_bare(args: Seq<ExprView>, name: Seq<char>, n: nat) -> bool
    decreases args,
{
    args.len() > 0 && (any_bare(args.drop_last(), name, n) || has_bare(args.last(), name, n))
}

/// Whether such a call stands in a plan.
pub open spec fn plan_has_bare(p: PlanView, name: Seq<char>, n: nat) -> bool
    decreases p,
{
    any_bare(p.exprs, name, n) || any_plan_has_bare(p.inputs, name, n)
}

/// Whether such a call stands in some plans.
pub open spec fn any_plan_has_bare(inputs: Seq<PlanView>, name: Seq<char>, n: nat) -> bool
    decreases inputs,
{
    inputs.len() > 0 && (any_plan_has_bare(inputs.drop_last(), name, n) || plan_has_bare(
        inputs.last(),
        name,
        n,
    ))
}

/// An expression in which the number is attached to every such call.
pub open spec fn attached(e: ExprView, name: Seq<char>, n: nat, literal: ExprView) -> ExprView
    decreases e,
{
    let args = attached_all(e.args, name, n, literal);
    ExprView {
        head: e.head,
        args: if is_bare(e, name, n) {
            args.push(literal)
        } else {
            args
        },
    }
}

/// Some expressions in which the number is attached to every such call.
pub open spec fn attached_all(
    args: Seq<ExprView>,
    name: Seq<char>,
    n: nat,
    literal: ExprView,
) -> Seq<ExprView>
    decreases args,
{
    if args.len() == 0 {
        Seq::empty()
    } else {
        attached_all(args.drop_last(), name, n, literal).push(
            attached(args.last(), name, n, literal),
        )
    }
}

/// A plan in which the number is attached to every such call.
pub open spec fn attached_plan(p: PlanView, name: Seq<char>, n: nat, literal: ExprView) -> PlanView
    decreases p,
{
    PlanView {
        op: p.op,
        exprs: attached_all(p.exprs, name, n, literal),
        inputs: attached_plans(p.inputs, name, n, literal),
    }
}

/// Some plans in which the number is attached to every such call.
pub open spec fn attached_plans(
    inputs: Seq<PlanView>,
    name: Seq<char>,
    n: nat,
    literal: ExprView,
) -> Seq<PlanView>
    decreases inputs,
{
    if inputs.len() == 0 {
        Seq::empty()
    } else {
        attached_plans(inputs.drop_last(), name, n, literal).push(
            attached_plan(inputs.last(), name, n, literal),
        )
    }
}

fn literal(double: u64, single: u32) -> (r: Expr)
    ensures
        r@ == number_literal(double, single),
{
    let args: Vec<Expr> = Vec::new();
    assert(expr_views(args@) =~= Seq::<ExprView>::empty());
    Expr { head: Head::Real(double, single), args }
}

/// Attaches a number to every such call in an expression, and says whether there
/// was any.
fn attach(e: &Expr, name: &str, n: usize, double: u64, single: u32) -> (r: (Expr, bool))
    ensures
        r.0@ == attached(e@, name@, n as nat, number_literal(double, single)),
        r.1 == has_bare(e@, name@, n as nat),
    decreases e, 1nat,
{
    let ghost lit = number_literal(double, single);
    let ghost all = expr_views(e.args@);
    assert(e@.args == all);
    let mut args: Vec<Expr> = Vec::new();
    let mut found: bool = false;
    let mut i: usize = 0;
    assert(expr_views(args@) =~= attached_all(all.take(0), name@, n as nat, lit));
    while i < e.args.len()
        invariant
            i <= e.args.len(),
            all == expr_views(e.args@),
            lit == number_literal(double, single),
            expr_views(args@) == attached_all(all.take(i as int), name@, n as nat, lit),
            found == any_bare(all.take(i as int), name@, n as nat),
        decreases e.args.len() - i,
    {
        assert(all.take(i + 1).drop_last() == all.take(i as int));
        assert(all.take(i + 1).last() == e.args@[i as int]@);
        assert(decreases_to!(*e => e.args@[i as int]));
        let ghost before = expr_views(args@);
        let (x, any) = attach(&e.args[i], name, n, double, single);
        args.push(x);
        assert(expr_views(args@) =~= before.push(x@));
        found = found || any;
        i += 1;
    }
    assert(all.take(i as int) == all);
    if e.is_call_of(name) && e.args.len() == n {
        let ghost before = expr_views(args@);
        let l = literal(double, single);
        args.push(l);
        assert(expr_views(args@) =~= before.push(l@));
        found = true;
    }
    (Expr { head: e.head.copy(), args }, found)
}

/// Attaches a number to every such call in a plan, and says whether there was
/// any.
pub fn attach_plan(plan: Plan, name: &str, n: usize, double: u64, single: u32) -> (r: (Plan, bool))
    ensures
        r.0@ == attached_plan(plan@, name@, n as nat, number_literal(double, single)),
        r.1 == plan_has_bare(plan@, name@, n as nat),
    decreases plan, 1nat,
{
    let ghost lit = number_literal(double, single);
    let ghost original = plan;
    let ghost all = plan_views(plan.inputs@);
    let ghost held = expr_views(plan.exprs@);
    assert(plan@.inputs == all);
    assert(plan@.exprs == held);
    let Plan { op, exprs, inputs } = plan;
    let ghost given = inputs@;
    let mut inputs = inputs;
    let mut found: bool = false;
    let mut below: Vec<Plan> = Vec::new();
    let mut i: usize = 0;
    assert(plan_views(below@) =~= attached_plans(all.take(0), name@, n as nat, lit));
    while i < inputs.len()
        invariant
            i <= inputs.len(),
            inputs@.len() == given.len(),
            original == plan,
            given == original.inputs@,
            all == plan_views(given),
            lit == number_literal(double, single),
            forall|k: int| i <= k < given.len() ==> inputs@[k] == given[k],
            plan_views(below@) == attached_plans(all.take(i as int), name@, n as nat, lit),
            found == any_plan_has_bare(all.take(i as int), name@, n as nat),
        decreases inputs.len() - i,
    {
        let mut input = Plan { op: Op::Projection, exprs: Vec::new(), inputs: Vec::new() };
        std::mem::swap(&mut inputs[i], &mut input);
        assert(input == given[i as int]);
        assert(decreases_to!(original => original.inputs@[i as int]));
        assert(all.take(i + 1).drop_last() == all.take(i as int));
        assert(all.take(i + 1).last() == input@);
        let ghost before = plan_views(below@);
        let (p, any) = attach_plan(input, name, n, double, single);
        below.push(p);
        assert(plan_views(below@) =~= before.push(p@));
        found = found || any;
        i += 1;
    }
    assert(all.take(i as int) == all);
    let mut out: Vec<Expr> = Vec::new();
    let mut bare: bool = false;
    let mut j: usize = 0;
    assert(expr_views(out@) =~= attached_all(held.take(0), name@, n as nat, lit));
    while j < exprs.len()
        invariant
            j <= exprs.len(),
            held == expr_views(exprs@),
            lit == number_literal(double, single),
            expr_views(out@) == attached_all(held.take(j as int), name@, n as nat, lit),
            bare == any_bare(held.take(j as int), name@, n as nat),
        decreases exprs.len() - j,
    {
        assert(held.take(j + 1).drop_last() == held.take(j as int));
        assert(held.take(j + 1).last() == exprs@[j as int]@);
        let ghost before = expr_views(out@);
        let (x, any) = attach(&exprs[j], name, n, double, single);
        out.push(x);
        assert(expr_views(out@) =~= before.push(x@));
        bare = bare || any;
        j += 1;
    }
    assert(held.take(j as int) == held);
    (Plan { op, exprs: out, inputs: below }, found || bare)
}

/// Once a number is attached, no call is without one.
pub proof fn lemma_plan_attached(p: PlanView, name: Seq<char>, n: nat, double: u64, single: u32)
    ensures
        !plan_has_bare(
            attached_plan(p, name, n, number_literal(double, single)),
            name,
            n,
        ),
    decreases p,
{
    let lit = number_literal(double, single);
    let q = attached_plan(p, name, n, lit);
    lemma_none_bare(p.exprs, name, n, lit);
    lemma_no_plan_bare(p.inputs, name, n, double, single);
}

proof fn lemma_no_plan_bare(
    inputs: Seq<PlanView>,
    name: Seq<char>,
    n: nat,
    double: u64,
    single: u32,
)
    ensures
        !any_plan_has_bare(
            attached_plans(inputs, name, n, number_literal(double, single)),
            name,
            n,
        ),
    decreases inputs,
{
    let lit = number_literal(double, single);
    if inputs.len() > 0 {
        lemma_no_plan_bare(inputs.drop_last(), name, n, double, single);
        lemma_plan_attached(inputs.last(), name, n, double, single);
        assert(attached_plans(inputs, name, n, lit).drop_last() =~= attached_plans(
            inputs.drop_last(),
            name,
            n,
            lit,
        ));
    }
}

proof fn lemma_none_bare(args: Seq<ExprView>, name: Seq<char>, n: nat, lit: ExprView)
    requires
        lit.head is Real,
        lit.args.len() == 0,
    ensures
        !any_bare(attached_all(args, name, n, lit), name, n),
        attached_all(args, name, n, lit).len() == args.len(),
    decreases args,
{
    if args.len() > 0 {
        lemma_none_bare(args.drop_last(), name, n, lit);
        lemma_not_bare(args.last(), name, n, lit);
        assert(attached_all(args, name, n, lit).drop_last() =~= attached_all(
            args.drop_last(),
            name,
            n,
            lit,
        ));
    }
}

proof fn lemma_not_bare(e: ExprView, name: Seq<char>, n: nat, lit: ExprView)
    requires
        lit.head is Real,
        lit.args.len() == 0,
    ensures
        !has_bare(attached(e, name, n, lit), name, n),
    decreases e,
{
    lemma_none_bare(e.args, name, n, lit);
    let args = attached_all(e.args, name, n, lit);
    if is_bare(e, name, n) {
        assert(args.push(lit).drop_last() =~= args);
        assert(!any_bare(lit.args, name, n));
        assert(!has_bare(lit, name, n));
    }
}

/// Attaching a number adds it to the calls that miss it, as their last argument, and
/// changes nothing else.
pub proof fn attaching_adds_the_number_alone(e: ExprView, name: Seq<char>, n: nat, literal: ExprView)
    ensures
        attached(e, name, n, literal).head == e.head,
        !has_bare(e, name, n) ==> attached(e, name, n, literal) == e,
        is_bare(e, name, n) ==> attached(e, name, n, literal).args.len() == n + 1 && attached(
            e,
            name,
            n,
            literal,
        ).args.last() == literal,
        is_bare(e, name, n) && !any_bare(e.args, name, n) ==> attached(e, name, n, literal).args
            == e.args.push(literal),
    decreases e,
{
    attaching_keeps_the_rest(e.args, name, n, literal);
}

proof fn attaching_keeps_the_rest(args: Seq<ExprView>, name: Seq<char>, n: nat, literal: ExprView)
    ensures
        attached_all(args, name, n, literal).len() == args.len(),
        !any_bare(args, name, n) ==> attached_all(args, name, n, literal) == args,
    decreases args,
{
    if args.len() > 0 {
        attaching_keeps_the_rest(args.drop_last(), name, n, literal);
        attaching_adds_the_number_alone(args.last(), name, n, literal);
        if !any_bare(args, name, n) {
            assert(args.drop_last().push(args.last()) =~= args);
        }
    } else {
        assert(attached_all(args, name, n, literal) =~= args);
    }
}

/// A plan keeps its shape: each of its nodes does what it did, over as many
/// expressions and inputs; and a plan without such a call stays as it is.
pub proof fn attaching_keeps_the_plan(p: PlanView, name: Seq<char>, n: nat, literal: ExprView)
    ensures
        ({
            let q = attached_plan(p, name, n, literal);
            &&& q.op == p.op
            &&& q.exprs.len() == p.exprs.len()
            &&& q.inputs.len() == p.inputs.len()
            &&& !plan_has_bare(p, name, n) ==> q == p
        }),
    decreases p,
{
    attaching_keeps_the_rest(p.exprs, name, n, literal);
    attaching_keeps_the_plans(p.inputs, name, n, literal);
}

proof fn attaching_keeps_the_plans(inputs: Seq<PlanView>, name: Seq<char>, n: nat, literal: ExprView)
    ensures
        attached_plans(inputs, name, n, literal).len() == inputs.len(),
        !any_plan_has_bare(inputs, name, n) ==> attached_plans(inputs, name, n, literal) == inputs,
    decreases inputs,
{
    if inputs.len() > 0 {
        attaching_keeps_the_plans(inputs.drop_last(), name, n, literal);
        attaching_keeps_the_plan(inputs.last(), name, n, literal);
        if !any_plan_has_bare(inputs, name, n) {
            assert(inputs.drop_last().push(inputs.last()) =~= inputs);
        }
    } else {
        assert(attached_plans(inputs, name, n, literal) =~= inputs);
    }
}

}
