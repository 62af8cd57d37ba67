//! What the semantic operators have in common as plan nodes: how many
//! expressions each takes, the columns that it adds to its input, and how it is
//! rebuilt over other inputs.

use vstd::prelude::*;

use crate::logical::expr::{expr_views, Expr};
use crate::logical::plan::{plan_views, Op, OpView, Plan, PlanError, PlanErrorView, PlanView};
use crate::logical::sem_classify::{branch_column_name, branch_name};
use crate::logical::sem_cluster::{label_column_name, label_name};
use crate::logical::sem_distinct::{key_column_name, key_name};
use crate::logical::sem_extract::{output_column_name, output_name};
use crate::logical::sem_rank::{score_column_name, score_name};
use crate::text::{decimal, decimal_of, views};

verus! {

/// The name of a semantic operator, before the words of a message.
pub open spec fn node_name(op: OpView) -> Seq<char> {
    match op {
        OpView::SemFilter { .. } => "SemFilter"@,
        OpView::SemClassify { .. } => "SemClassify"@,
        OpView::SemRank { .. } => "SemRank"@,
        OpView::SemCluster { .. } => "SemCluster"@,
        OpView::SemDistinct { .. } => "SemDistinct"@,
        OpView::SemExtract { .. } => "SemExtract"@,
        _ => ""@,
    }
}

/// Whether an operator is one of the semantic ones.
pub open spec fn is_semantic(op: OpView) -> bool {
    op is SemFilter || op is SemClassify || op is SemRank || op is SemCluster || op is SemDistinct
        || op is SemExtract
}

/// How many expressions a semantic operator takes.
pub open spec fn expected_exprs(op: OpView) -> nat {
    match op {
        OpView::SemClassify { guarded: true, .. } => 2,
        _ => 1,
    }
}

/// The message of a semantic operator that was given other inputs than it takes.
pub open spec fn arity_message(op: OpView, exprs: nat, inputs: nat) -> Seq<char> {
    node_name(op) + " expects exactly "@ + (if op is SemClassify {
        decimal(expected_exprs(op)) + " expression(s)"@
    } else {
        "1 expression"@
    }) + " and 1 input, got "@ + decimal(exprs) + " and "@ + decimal(inputs)
}

/// The columns that a semantic operator adds to those of its input.
pub open spec fn added_names(op: OpView) -> Seq<Seq<char>> {
    match op {
        OpView::SemClassify { conditions, id, .. } => Seq::new(
            conditions.len(),
            |b: int| branch_name(id, b as nat),
        ),
        OpView::SemRank { id, .. } => seq![score_name(id)],
        OpView::SemCluster { id, .. } => seq![label_name(id)],
        OpView::SemDistinct { id, .. } => seq![key_name(id)],
        OpView::SemExtract { fields, id, .. } => Seq::new(
            fields.len(),
            |i: int| output_name(id, fields[i]),
        ),
        _ => Seq::empty(),
    }
}

/// Why a semantic operator cannot stand over some expressions and inputs.
pub open spec fn rebuild_error(op: OpView, exprs: nat, inputs: nat) -> Option<Seq<char>> {
    if exprs != expected_exprs(op) || inputs != 1 {
        Some(arity_message(op, exprs, inputs))
    } else if op matches OpView::SemClassify { conditions, .. } && conditions.len() == 0 {
        Some("SemClassify needs at least one condition"@)
    } else {
        None
    }
}

fn named(op: &Op) -> (r: &'static str)
    ensures
        r@ == node_name(op@),
{
    match op {
        Op::SemFilter { .. } => "SemFilter",
        Op::SemClassify { .. } => "SemClassify",
        Op::SemRank { .. } => "SemRank",
        Op::SemCluster { .. } => "SemCluster",
        Op::SemDistinct { .. } => "SemDistinct",
        Op::SemExtract { .. } => "SemExtract",
        _ => "",
    }
}

fn arity_text(op: &Op, exprs: usize, inputs: usize) -> (r: String)
    ensures
        r@ == arity_message(op@, exprs as nat, inputs as nat),
{
    let (expected, classifies): (usize, bool) = match op {
        Op::SemClassify { guarded, .. } => (
            if *guarded {
                2
            } else {
                1
            },
            true,
        ),
        _ => (1, false),
    };
    let mut text: String = named(op).to_owned();
    text.append(" expects exactly ");
    if classifies {
        let n = decimal_of(expected as u64);
        let words = n.concat(" expression(s)");
        text.append(words.as_str());
    } else {
        text.append("1 expression");
    }
    text.append(" and 1 input, got ");
    let n = decimal_of(exprs as u64);
    text.append(n.as_str());
    text.append(" and ");
    let n = decimal_of(inputs as u64);
    text.append(n.as_str());
    text
}

/// Stands a semantic operator over other expressions and inputs.
pub fn with_exprs_and_inputs(op: Op, exprs: Vec<Expr>, inputs: Vec<Plan>) -> (r: Result<
    Plan,
    PlanError,
>)
    requires
        is_semantic(op@),
    ensures
        match rebuild_error(op@, exprs@.len(), inputs@.len()) {
            Some(message) => r is Err && r->Err_0@ == PlanErrorView::Internal(message),
            None => r is Ok && r->Ok_0@ == (PlanView {
                op: op@,
                exprs: expr_views(exprs@),
                inputs: plan_views(inputs@),
            }),
        },
{
    let (expected, empty): (usize, bool) = match &op {
        Op::SemClassify { conditions, guarded, .. } => (
            if *guarded {
                2
            } else {
                1
            },
            conditions.len() == 0,
        ),
        _ => (1, false),
    };
    if exprs.len() != expected || inputs.len() != 1 {
        return Err(PlanError::Internal(arity_text(&op, exprs.len(), inputs.len())));
    }
    if empty {
        return Err(PlanError::Internal("SemClassify needs at least one condition".to_owned()));
    }
    Ok(Plan { op, exprs, inputs })
}

/// The columns that a semantic operator adds to those of its input.
pub fn added_columns(op: &Op) -> (r: Vec<String>)
    ensures
        views(r@) == added_names(op@),
{
    let ghost want = added_names(op@);
    let mut out: Vec<String> = Vec::new();
    assert(views(out@) =~= want.take(0));
    match op {
        Op::SemClassify { conditions, id, .. } => {
            let mut b: usize = 0;
            while b < conditions.len()
                invariant
                    b <= conditions.len(),
                    want == Seq::new(
                        conditions@.len(),
                        |b: int| branch_name(*id as nat, b as nat),
                    ),
                    views(out@) == want.take(b as int),
                decreases conditions.len() - b,
            {
                let ghost before = views(out@);
                let name = branch_column_name(*id, b);
                out.push(name);
                assert(views(out@) =~= before.push(name@));
                assert(want.take(b + 1) =~= before.push(name@));
                b += 1;
            }
            assert(want.take(b as int) =~= want);
        },
        Op::SemRank { id, .. } => {
            out.push(score_column_name(*id));
            assert(views(out@) =~= want);
        },
        Op::SemCluster { id, .. } => {
            out.push(label_column_name(*id));
            assert(views(out@) =~= want);
        },
        Op::SemDistinct { id, .. } => {
            out.push(key_column_name(*id));
            assert(views(out@) =~= want);
        },
        Op::SemExtract { fields, id, .. } => {
            let mut i: usize = 0;
            let ghost names = views(fields@);
            while i < fields.len()
                invariant
                    i <= fields.len(),
                    names == views(fields@),
                    want == Seq::new(names.len(), |i: int| output_name(*id as nat, names[i])),
                    views(out@) == want.take(i as int),
                decreases fields.len() - i,
            {
                let ghost before = views(out@);
                let name = output_column_name(*id, fields[i].as_str());
                out.push(name);
                assert(names[i as int] == fields@[i as int]@);
                assert(views(out@) =~= before.push(name@));
                assert(want.take(i + 1) =~= before.push(name@));
                i += 1;
            }
            assert(want.take(i as int) =~= want);
        },
        _ => {
            assert(views(out@) =~= want);
        },
    }
    out
}

/// A node adds the columns that are read of it: one for each of its conditions, for
/// its score, its label or its key, and one for each field that it extracts.
pub proof fn a_node_adds_the_columns_that_are_read(op: OpView, b: int, field: Seq<char>)
    ensures
        op matches OpView::SemClassify { conditions, id, .. } ==> added_names(op).len()
            == conditions.len() && (0 <= b < conditions.len() ==> added_names(op)[b]
            == branch_name(id, b as nat)),
        op matches OpView::SemRank { id, .. } ==> added_names(op).contains(score_name(id)),
        op matches OpView::SemCluster { id, .. } ==> added_names(op).contains(label_name(id)),
        op matches OpView::SemDistinct { id, .. } ==> added_names(op).contains(key_name(id)),
        op matches OpView::SemExtract { fields, id, .. } ==> added_names(op).len() == fields.len()
            && (fields.contains(field) ==> added_names(op).contains(output_name(id, field))),
        op is SemFilter ==> added_names(op).len() == 0,
        !is_semantic(op) ==> added_names(op).len() == 0,
{
    match op {
        OpView::SemRank { id, .. } => {
            assert(added_names(op)[0] == score_name(id));
        },
        OpView::SemCluster { id, .. } => {
            assert(added_names(op)[0] == label_name(id));
        },
        OpView::SemDistinct { id, .. } => {
            assert(added_names(op)[0] == key_name(id));
        },
        OpView::SemExtract { fields, id, .. } => {
            if fields.contains(field) {
                let i = choose|i: int| 0 <= i < fields.len() && fields[i] == field;
                assert(added_names(op)[i] == output_name(id, field));
            }
        },
        _ => {},
    }
}

/// A semantic operator stands over one input, with one expression, or two where it
/// is guarded, and a classification has something to ask; all else is refused.
pub proof fn a_node_is_rebuilt_over_what_it_takes(op: OpView, exprs: nat, inputs: nat)
    requires
        is_semantic(op),
    ensures
        rebuild_error(op, exprs, inputs) is None <==> inputs == 1 && match op {
            OpView::SemClassify { conditions, guarded, .. } => conditions.len() > 0 && exprs
                == if guarded {
                2nat
            } else {
                1nat
            },
            _ => exprs == 1,
        },
{
}

/// A refusal names the operator first, and says last what it was given.
pub proof fn a_refusal_says_what_was_given(op: OpView, exprs: nat, inputs: nat)
    ensures
        node_name(op).is_prefix_of(arity_message(op, exprs, inputs)),
        (decimal(exprs) + " and "@ + decimal(inputs)).is_suffix_of(
            arity_message(op, exprs, inputs),
        ),
        rebuild_error(op, exprs, inputs) matches Some(message) ==> (exprs != expected_exprs(op)
            || inputs != 1 ==> message == arity_message(op, exprs, inputs)),
{
    let what = if op is SemClassify {
        decimal(expected_exprs(op)) + " expression(s)"@
    } else {
        "1 expression"@
    };
    let head = node_name(op) + " expects exactly "@ + what + " and 1 input, got "@;
    let tail = decimal(exprs) + " and "@ + decimal(inputs);
    let whole = arity_message(op, exprs, inputs);
    lemma_three_behind(head, decimal(exprs), " and "@, decimal(inputs));
    assert(whole == head + tail);
    lemma_ends(head, tail);
    lemma_front(node_name(op), " expects exactly "@, what, " and 1 input, got "@);
    assert(node_name(op).is_prefix_of(head));
    assert(node_name(op).is_prefix_of(whole)) by {
        let n = node_name(op).len() as int;
        assert(whole.take(n) =~= head.take(n));
    }
}

proof fn lemma_three_behind(head: Seq<char>, a: Seq<char>, b: Seq<char>, c: Seq<char>)
    ensures
        head + a + b + c == head + (a + b + c),
{
    assert(head + a + b + c =~= head + (a + b + c));
}

proof fn lemma_ends(head: Seq<char>, tail: Seq<char>)
    ensures
        tail.is_suffix_of(head + tail),
{
    assert((head + tail).subrange((head + tail).len() - tail.len(), (head + tail).len() as int)
        =~= tail);
}

proof fn lemma_front(a: Seq<char>, b: Seq<char>, c: Seq<char>, d: Seq<char>)
    ensures
        a.is_prefix_of(a + b + c + d),
{
    assert((a + b + c + d).subrange(0, a.len() as int) =~= a);
}

}
