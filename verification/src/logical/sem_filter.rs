//! The `MEANS` predicate as a logical operator.
//!
//! Ground truth: a model reading the full text would say yes. Everything that
//! the planner substitutes for that (index pre-filters, chunked reads) is an
//! approximation managed under the recall floor.

use vstd::prelude::*;

verus! {

/// The line that `EXPLAIN` shows for a semantic filter, by the recall floor as
/// it is printed.
pub fn explain_filter(condition: &str, recall: Option<&str>) -> (r: String)
    ensures
        r@ == "SemFilter: MEANS('"@ + condition@ + "')"@ + match recall {
            Some(recall) => "   recall \u{2265} "@ + recall@,
            None => "   recall best-effort"@,
        },
{
    let mut line: String = "SemFilter: MEANS('".to_owned();
    line.append(condition);
    line.append("')");
    match recall {
        Some(recall) => {
            let ghost before = line@;
            line.append("   recall \u{2265} ");
            line.append(recall);
            assert(line@ =~= before + ("   recall \u{2265} "@ + recall@));
        },
        None => {
            line.append("   recall best-effort");
        },
    }
    line
}

}
