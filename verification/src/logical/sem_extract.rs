//! Typed extraction: the node `CAST(text AS T)[.field]` and inline
//! `EXTRACT(...)` desugar to. Extraction runs after the funnel, never before it.

use vstd::prelude::*;

use crate::text::{
    decimal, decimal_is_digits, decimal_is_injective, decimal_of, is_digit, push_decimal,
};

verus! {

pub open spec fn output_name(id: nat, field: Seq<char>) -> Seq<char> {
    "__sem_"@ + decimal(id) + "_"@ + field
}

/// Node-scoped column name: the `id` keeps two extraction nodes over the same
/// type from colliding.
pub fn output_column_name(id: usize, field: &str) -> (r: String)
    ensures
        r@ == output_name(id as nat, field@),
{
    let mut name: String = "__sem_".to_owned();
    push_decimal(&mut name, id as u64);
    name.append("_");
    name.append(field);
    name
}

proof fn lemma_split(a: nat, f: Seq<char>, b: nat, g: Seq<char>)
    requires
        output_name(a, f) == output_name(b, g),
    ensures
        decimal(a).len() >= decimal(b).len(),
{
    reveal_strlit("__sem_");
    reveal_strlit("_");
    decimal_is_digits(a);
    decimal_is_digits(b);
    let x = output_name(a, f);
    let y = output_name(b, g);
    let da = decimal(a);
    let db = decimal(b);
    if da.len() < db.len() {
        let k = da.len() as int;
        assert(x[6 + k] == '_');
        assert(y[6 + k] == db[k]);
        assert(is_digit(db[k]));
    }
}

/// Two extraction nodes never share a column, nor do two fields of one node.
pub proof fn output_names_never_collide(a: nat, f: Seq<char>, b: nat, g: Seq<char>)
    requires
        output_name(a, f) == output_name(b, g),
    ensures
        a == b,
        f == g,
{
    reveal_strlit("__sem_");
    reveal_strlit("_");
    lemma_split(a, f, b, g);
    lemma_split(b, g, a, f);
    let x = output_name(a, f);
    let y = output_name(b, g);
    let da = decimal(a);
    let db = decimal(b);
    assert forall|i: int| 0 <= i < da.len() implies da[i] == db[i] by {
        assert(x[6 + i] == da[i] && y[6 + i] == db[i]);
    }
    assert(da =~= db);
    decimal_is_injective(a, b);
    assert(x.len() == 7 + da.len() + f.len());
    assert(y.len() == 7 + db.len() + g.len());
    assert forall|i: int| 0 <= i < f.len() implies f[i] == g[i] by {
        assert(x[7 + da.len() + i] == f[i] && y[7 + db.len() + i] == g[i]);
    }
    assert(f =~= g);
}

/// The line that `EXPLAIN` shows for an extraction node.
pub fn explain_extract(target: &str, fields: usize) -> (r: String)
    ensures
        r@ == "SemExtract: "@ + target@ + " ["@ + decimal(fields as nat) + " field(s)]"@,
{
    let mut line: String = "SemExtract: ".to_owned();
    line.append(target);
    line.append(" [");
    let n = decimal_of(fields as u64);
    line.append(n.as_str());
    line.append(" field(s)]");
    line
}

}
