//! Semantic ranking: the node `ORDER BY … RELEVANCE TO …` and `relevance()`
//! desugar to.
//!
//! The node is a score materializer, not a sort: it extends its input with one
//! score column and prunes to the index's candidates. The sort and the limit
//! above it do the ordering and the truncation.

use vstd::prelude::*;

use crate::text::{concat3, decimal, decimal_is_injective, decimal_of};

verus! {

/// How many candidates the index stage fetches per row the query asked for. The
/// rerank pass is the expensive stage, so this multiplier is the cost/recall
/// dial, whatever the table's size.
pub const OVER_FETCH: usize = 4;

/// Never fetch fewer candidates than this, however small the `LIMIT`: a
/// `LIMIT 1` still deserves a field to choose from.
pub const MIN_CANDIDATES: usize = 32;

/// How many candidate documents the index stage should fetch for a limit.
pub fn candidates(limit: usize) -> (r: usize)
    requires
        limit * OVER_FETCH <= usize::MAX,
    ensures
        r == if limit * OVER_FETCH < MIN_CANDIDATES {
            MIN_CANDIDATES as int
        } else {
            limit * OVER_FETCH
        },
{
    let n: usize = limit * OVER_FETCH;
    if n < MIN_CANDIDATES {
        MIN_CANDIDATES
    } else {
        n
    }
}

pub open spec fn score_name(id: nat) -> Seq<char> {
    "__sem_rank_"@ + decimal(id) + "_score"@
}

/// Node-scoped column name: the `id` keeps two rank nodes in one plan from
/// colliding.
pub fn score_column_name(id: usize) -> (r: String)
    ensures
        r@ == score_name(id as nat),
{
    let number = decimal_of(id as u64);
    concat3("__sem_rank_", number.as_str(), "_score")
}

/// Two rank nodes never share a score column.
pub proof fn score_names_never_collide(a: nat, b: nat)
    requires
        score_name(a) == score_name(b),
    ensures
        a == b,
{
    lemma_same_middle("__sem_rank_"@, decimal(a), decimal(b), "_score"@);
    decimal_is_injective(a, b);
}

/// Two texts with the same ends have the same middle.
pub proof fn lemma_same_middle(head: Seq<char>, a: Seq<char>, b: Seq<char>, tail: Seq<char>)
    requires
        head + a + tail == head + b + tail,
    ensures
        a == b,
{
    let x = head + a + tail;
    let y = head + b + tail;
    assert(x.len() == head.len() + a.len() + tail.len());
    assert(y.len() == head.len() + b.len() + tail.len());
    assert forall|i: int| 0 <= i < a.len() implies a[i] == b[i] by {
        assert(x[head.len() + i] == a[i]);
        assert(y[head.len() + i] == b[i]);
    }
    assert(a =~= b);
}

/// The line that `EXPLAIN` shows for a rank node.
pub fn explain_rank(query: &str, limit: usize) -> (r: String)
    requires
        limit * OVER_FETCH <= usize::MAX,
    ensures
        r@ == "SemRank: RELEVANCE TO '"@ + query@ + "' limit="@ + decimal(limit as nat)
            + " candidates="@ + decimal(
            if limit * OVER_FETCH < MIN_CANDIDATES {
                MIN_CANDIDATES as nat
            } else {
                (limit * OVER_FETCH) as nat
            },
        ),
{
    let mut line: String = "SemRank: RELEVANCE TO '".to_owned();
    line.append(query);
    line.append("' limit=");
    let n = decimal_of(limit as u64);
    line.append(n.as_str());
    line.append(" candidates=");
    let c = decimal_of(candidates(limit) as u64);
    line.append(c.as_str());
    line
}

}
