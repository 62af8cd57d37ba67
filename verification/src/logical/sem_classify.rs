//! Semantic classification: the node a `MEANS` in a `SELECT` list desugars to.
//!
//! The node materializes one boolean column per condition and nothing else.
//! `CASE` stays in the projection above it, rewritten to reference those
//! columns. Each column means exactly what the same `MEANS` would mean in a
//! `WHERE`: a model reading the text would say the condition holds.

use vstd::prelude::*;

use crate::text::{decimal, decimal_is_digits, decimal_is_injective, is_digit, push_decimal, views};

verus! {

pub open spec fn branch_name(id: nat, branch: nat) -> Seq<char> {
    "__sem_class_"@ + decimal(id) + "_"@ + decimal(branch)
}

/// Node-scoped column name: the `id` keeps two classify nodes in one plan from
/// colliding.
pub fn branch_column_name(id: usize, branch: usize) -> (r: String)
    ensures
        r@ == branch_name(id as nat, branch as nat),
{
    let mut name: String = "__sem_class_".to_owned();
    push_decimal(&mut name, id as u64);
    name.append("_");
    push_decimal(&mut name, branch as u64);
    name
}

proof fn lemma_split(a: nat, m: nat, b: nat, n: nat)
    requires
        branch_name(a, m) == branch_name(b, n),
    ensures
        decimal(a).len() >= decimal(b).len(),
{
    reveal_strlit("__sem_class_");
    reveal_strlit("_");
    decimal_is_digits(a);
    decimal_is_digits(b);
    let x = branch_name(a, m);
    let y = branch_name(b, n);
    let da = decimal(a);
    let db = decimal(b);
    if da.len() < db.len() {
        let k = da.len() as int;
        assert(x[12 + k] == '_');
        assert(y[12 + k] == db[k]);
        assert(is_digit(db[k]));
    }
}

/// Two classify nodes never share a column, nor do two branches of one node.
pub proof fn branch_names_never_collide(a: nat, m: nat, b: nat, n: nat)
    requires
        branch_name(a, m) == branch_name(b, n),
    ensures
        a == b,
        m == n,
{
    reveal_strlit("__sem_class_");
    reveal_strlit("_");
    lemma_split(a, m, b, n);
    lemma_split(b, n, a, m);
    let x = branch_name(a, m);
    let y = branch_name(b, n);
    let da = decimal(a);
    let db = decimal(b);
    let dm = decimal(m);
    let dn = decimal(n);
    assert forall|i: int| 0 <= i < da.len() implies da[i] == db[i] by {
        assert(x[12 + i] == da[i] && y[12 + i] == db[i]);
    }
    assert(da =~= db);
    decimal_is_injective(a, b);
    assert(x.len() == 13 + da.len() + dm.len());
    assert(y.len() == 13 + db.len() + dn.len());
    assert forall|i: int| 0 <= i < dm.len() implies dm[i] == dn[i] by {
        assert(x[13 + da.len() + i] == dm[i] && y[13 + db.len() + i] == dn[i]);
    }
    assert(dm =~= dn);
    decimal_is_injective(m, n);
}

/// The conditions in quotes, separated by commas.
pub open spec fn quoted_list(conditions: Seq<Seq<char>>) -> Seq<char>
    decreases conditions.len(),
{
    if conditions.len() == 0 {
        Seq::empty()
    } else {
        quoted_list(conditions.drop_last()) + (if conditions.len() > 1 {
            ", "@
        } else {
            Seq::empty()
        }) + "'"@ + conditions.last() + "'"@
    }
}

/// The line that `EXPLAIN` shows for a classify node.
pub fn explain_classify(conditions: &Vec<String>, guarded: bool) -> (r: String)
    ensures
        r@ == "SemClassify: MEANS("@ + quoted_list(views(conditions@)) + ")   1 model call per row"@
            + (if guarded {
            ", gated"@
        } else {
            Seq::empty()
        }),
{
    let mut line: String = "SemClassify: MEANS(".to_owned();
    let ghost head = line@;
    let ghost all = views(conditions@);
    let mut i: usize = 0;
    assert(head + quoted_list(all.take(0)) == head);
    while i < conditions.len()
        invariant
            i <= conditions.len(),
            all == views(conditions@),
            line@ == head + quoted_list(all.take(i as int)),
        decreases conditions.len() - i,
    {
        assert(all.take(i + 1).drop_last() == all.take(i as int));
        if i > 0 {
            line.append(", ");
        }
        line.append("'");
        line.append(conditions[i].as_str());
        line.append("'");
        assert(line@ == head + quoted_list(all.take(i + 1)));
        i += 1;
    }
    assert(all.take(i as int) == all);
    line.append(")   1 model call per row");
    if guarded {
        line.append(", gated");
    } else {
        assert(line@ + Seq::<char>::empty() == line@);
    }
    line
}

}
