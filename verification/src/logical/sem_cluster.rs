//! Semantic clustering: the node `GROUP BY MEANING OF` desugars to.
//!
//! The node only materializes a column, the label of the group each row landed
//! in. It is blocking, and unavoidably so: which group a row belongs to is a
//! fact about the whole relation, not about the row.

use vstd::prelude::*;

use crate::logical::sem_rank::lemma_same_middle;
use crate::text::{concat3, decimal, decimal_is_injective, decimal_of};

verus! {

/// How many of a cluster's most central documents the model reads when naming
/// it. Enough to see the theme, few enough that labelling stays one cheap call
/// per cluster.
pub const REPRESENTATIVES_PER_CLUSTER: usize = 5;

pub open spec fn label_name(id: nat) -> Seq<char> {
    "__sem_cluster_"@ + decimal(id) + "_label"@
}

/// Node-scoped column name: the `id` keeps two cluster nodes in one plan from
/// colliding.
pub fn label_column_name(id: usize) -> (r: String)
    ensures
        r@ == label_name(id as nat),
{
    let number = decimal_of(id as u64);
    concat3("__sem_cluster_", number.as_str(), "_label")
}

/// Two cluster nodes never share a label column.
pub proof fn label_names_never_collide(a: nat, b: nat)
    requires
        label_name(a) == label_name(b),
    ensures
        a == b,
{
    lemma_same_middle("__sem_cluster_"@, decimal(a), decimal(b), "_label"@);
    decimal_is_injective(a, b);
}

/// The line that `EXPLAIN` shows for a cluster node.
pub fn explain_cluster(k: Option<u64>) -> (r: String)
    ensures
        r@ == "SemCluster: MEANING OF INTO "@ + (match k {
            Some(k) => decimal(k as nat),
            None => "auto"@,
        }) + "   1 model call per group, blocking"@,
{
    let into: String = match k {
        Some(k) => decimal_of(k),
        None => "auto".to_owned(),
    };
    concat3("SemCluster: MEANING OF INTO ", into.as_str(), "   1 model call per group, blocking")
}

}
