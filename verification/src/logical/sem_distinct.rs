//! Semantic dedupe: the node `SEMANTIC DISTINCT ON` desugars to.
//!
//! It materializes a key, a short stable string shared by every document in a
//! near-duplicate group. `DISTINCT ON` then deduplicates by that key like any
//! other column.

use vstd::prelude::*;

use crate::logical::sem_rank::lemma_same_middle;
use crate::text::{concat3, decimal, decimal_is_injective, decimal_of};

verus! {

pub open spec fn key_name(id: nat) -> Seq<char> {
    "__sem_distinct_"@ + decimal(id) + "_key"@
}

/// Node-scoped column name: the `id` keeps two dedupe nodes in one plan from
/// colliding.
pub fn key_column_name(id: usize) -> (r: String)
    ensures
        r@ == key_name(id as nat),
{
    let number = decimal_of(id as u64);
    concat3("__sem_distinct_", number.as_str(), "_key")
}

/// Two dedupe nodes never share a key column.
pub proof fn key_names_never_collide(a: nat, b: nat)
    requires
        key_name(a) == key_name(b),
    ensures
        a == b,
{
    lemma_same_middle("__sem_distinct_"@, decimal(a), decimal(b), "_key"@);
    decimal_is_injective(a, b);
}

/// The line that `EXPLAIN` shows for a dedupe node, by the similarity as it is
/// printed.
pub fn explain_distinct(similarity: &str) -> (r: String)
    ensures
        r@ == "SemDistinct: SIMILARITY \u{2265} "@ + similarity@ + "   no model calls, blocking"@,
{
    concat3("SemDistinct: SIMILARITY \u{2265} ", similarity, "   no model calls, blocking")
}

}
