//! Greedy near-duplicate grouping over document vectors.
//!
//! Clustering asks "what are the themes here" and answers with `k` groups.
//! Dedupe asks a narrower question, "which of these are the same thing", and the
//! answer is not a count but a threshold: two documents are the same when they
//! are at least this similar.
//!
//! So this is not k-means. It walks the documents in order and gives each one
//! either an existing representative it is close enough to, or its own. That
//! makes the first document of each group the one that defines it, which is what
//! "keep the first, drop the rest" needs to mean something.

use vstd::prelude::*;

use crate::index::kmeans::ints;
use crate::number::Single;

verus! {

/// Similarity at or above which two documents count as duplicates, when the
/// query didn't say: the bits of 0.9 in single precision. Deliberately strict:
/// wrongly merging two distinct rows loses data, while wrongly keeping two
/// similar ones only leaves a duplicate the user can see.
pub const DEFAULT_SIMILARITY: u32 = 0x3f66_6666;

/// The nearest of some representatives to a point, among those that are at
/// least `threshold` similar; of equally near ones, the last.
pub open spec fn nearest_rep(
    similarities: Seq<Single>,
    reps: Seq<int>,
    threshold: Single,
) -> Option<int>
    decreases reps.len(),
{
    if reps.len() == 0 {
        None
    } else {
        let best = nearest_rep(similarities, reps.drop_last(), threshold);
        let rep = reps.last();
        if !threshold.at_most(similarities[rep]) {
            best
        } else {
            match best {
                Some(b) => if similarities[b].total_rank() <= similarities[rep].total_rank() {
                    Some(rep)
                } else {
                    Some(b)
                },
                None => Some(rep),
            }
        }
    }
}

/// The representatives among the first points.
pub open spec fn reps_of(groups: Seq<int>) -> Seq<int>
    decreases groups.len(),
{
    if groups.len() == 0 {
        Seq::empty()
    } else {
        let before = reps_of(groups.drop_last());
        if groups.last() == groups.len() - 1 {
            before.push(groups.len() - 1)
        } else {
            before
        }
    }
}

/// The representative of each of the first `n` points.
pub open spec fn groups_of(similarities: Seq<Vec<Single>>, threshold: Single, n: nat) -> Seq<int>
    decreases n,
{
    if n == 0 {
        Seq::empty()
    } else {
        let before = groups_of(similarities, threshold, (n - 1) as nat);
        match nearest_rep(similarities[n - 1]@, reps_of(before), threshold) {
            Some(rep) => before.push(rep),
            None => before.push(n - 1),
        }
    }
}

/// The similarities of each point to every point before it are there.
pub open spec fn lower_triangle(similarities: Seq<Vec<Single>>) -> bool {
    forall|i: int| 0 <= i < similarities.len() ==> (#[trigger] similarities[i]).len() >= i
}

/// For each point, the index of the point that represents its group, from the
/// similarities of each point to those before it.
///
/// A representative points at itself, so `groups[i] == i` identifies the rows
/// that survive a dedupe. Order matters and is the caller's: the first point of
/// a group is always its representative. The nearest representative wins, not
/// merely the first one over the line, for otherwise the grouping would depend
/// on representative discovery order rather than on the geometry.
pub fn greedy_groups(similarities: &Vec<Vec<Single>>, threshold: Single) -> (r: Vec<usize>)
    requires
        lower_triangle(similarities@),
    ensures
        ints(r@) == groups_of(similarities@, threshold, similarities@.len()),
{
    let mut groups: Vec<usize> = Vec::new();
    let mut representatives: Vec<usize> = Vec::new();
    let ghost all = similarities@;
    let mut i: usize = 0;
    assert(ints(groups@) == groups_of(all, threshold, 0));
    assert(ints(representatives@) == reps_of(ints(groups@)));
    while i < similarities.len()
        invariant
            i <= similarities.len(),
            all == similarities@,
            lower_triangle(all),
            ints(groups@) == groups_of(all, threshold, i as nat),
            groups.len() == i,
            ints(representatives@) == reps_of(ints(groups@)),
            forall|k: int|
                0 <= k < representatives.len() ==> #[trigger] representatives[k] < i,
        decreases similarities.len() - i,
    {
        let row = &similarities[i];
        let ghost reps = ints(representatives@);
        assert(all[i as int].len() >= i);
        let mut best: Option<usize> = None;
        let mut k: usize = 0;
        while k < representatives.len()
            invariant
                k <= representatives.len(),
                reps == ints(representatives@),
                row.len() >= i,
                forall|k: int|
                    0 <= k < representatives.len() ==> #[trigger] representatives[k] < i,
                match best {
                    Some(b) => b < i && nearest_rep(row@, reps.take(k as int), threshold) == Some(
                        b as int,
                    ),
                    None => nearest_rep(row@, reps.take(k as int), threshold) is None,
                },
            decreases representatives.len() - k,
        {
            assert(reps.take(k + 1).drop_last() == reps.take(k as int));
            assert(reps.take(k + 1).last() == reps[k as int]);
            let rep: usize = representatives[k];
            if threshold.le(row[rep]) {
                best = match best {
                    Some(b) => if row[b].total_le(row[rep]) {
                        Some(rep)
                    } else {
                        Some(b)
                    },
                    None => Some(rep),
                };
            }
            k += 1;
        }
        assert(reps.take(k as int) == reps);
        let ghost before = ints(groups@);
        match best {
            Some(rep) => {
                groups.push(rep);
                assert(ints(groups@) == before.push(rep as int));
                assert(ints(groups@).drop_last() == before);
            },
            None => {
                representatives.push(i);
                groups.push(i);
                assert(ints(groups@) == before.push(i as int));
                assert(ints(groups@).drop_last() == before);
                assert(ints(representatives@) == reps.push(i as int));
            },
        }
        i += 1;
    }
    groups
}

proof fn lemma_reps(groups: Seq<int>)
    ensures
        forall|k: int|
            0 <= k < reps_of(groups).len() ==> {
                let p = #[trigger] reps_of(groups)[k];
                0 <= p < groups.len() && groups[p] == p
            },
        forall|p: int|
            0 <= p < groups.len() && #[trigger] groups[p] == p ==> reps_of(groups).contains(p),
    decreases groups.len(),
{
    if groups.len() > 0 {
        let short = groups.drop_last();
        lemma_reps(short);
        let before = reps_of(short);
        let now = reps_of(groups);
        assert forall|k: int| 0 <= k < now.len() implies {
            let p = #[trigger] now[k];
            0 <= p < groups.len() && groups[p] == p
        } by {
            if k < before.len() {
                assert(now[k] == before[k]);
                assert(short[before[k]] == groups[before[k]]);
            }
        }
        assert forall|p: int| 0 <= p < groups.len() && #[trigger] groups[p] == p implies now.contains(
            p,
        ) by {
            if p < short.len() {
                assert(short[p] == p);
                let k = choose|k: int| 0 <= k < before.len() && before[k] == p;
                assert(now[k] == p);
            } else {
                assert(now[now.len() - 1] == p);
            }
        }
    }
}

proof fn lemma_nearest_rep(similarities: Seq<Single>, reps: Seq<int>, threshold: Single)
    ensures
        nearest_rep(similarities, reps, threshold) matches Some(b) ==> reps.contains(b)
            && threshold.at_most(similarities[b]) && forall|k: int|
            0 <= k < reps.len() && threshold.at_most(similarities[#[trigger] reps[k]])
                ==> similarities[reps[k]].total_rank() <= similarities[b].total_rank(),
        nearest_rep(similarities, reps, threshold) is None ==> forall|k: int|
            0 <= k < reps.len() ==> !threshold.at_most(similarities[#[trigger] reps[k]]),
    decreases reps.len(),
{
    if reps.len() > 0 {
        let short = reps.drop_last();
        lemma_nearest_rep(similarities, short, threshold);
        let n = reps.len() - 1;
        match nearest_rep(similarities, reps, threshold) {
            Some(b) => {
                if b == reps[n] {
                    assert(reps.contains(b));
                } else {
                    let k = choose|k: int| 0 <= k < short.len() && short[k] == b;
                    assert(reps[k] == b);
                }
                assert forall|k: int|
                    0 <= k < reps.len() && threshold.at_most(
                        similarities[#[trigger] reps[k]],
                    ) implies similarities[reps[k]].total_rank() <= similarities[b].total_rank() by {
                    if k < n {
                        assert(short[k] == reps[k]);
                    }
                }
            },
            None => {
                assert forall|k: int| 0 <= k < reps.len() implies !threshold.at_most(
                    similarities[#[trigger] reps[k]],
                ) by {
                    if k < n {
                        assert(short[k] == reps[k]);
                    }
                }
            },
        }
    }
}

/// The first point of a group is always its representative: a point's
/// representative does not come after it, represents itself, and is at least
/// `threshold` similar; no other representative before the point is more
/// similar; and a point that represents itself is less than `threshold` similar
/// to every representative before it.
pub proof fn groups_are_named_by_their_first_point(
    similarities: Seq<Vec<Single>>,
    threshold: Single,
    n: nat,
    i: int,
)
    requires
        0 <= i < n,
    ensures
        ({
            let g = groups_of(similarities, threshold, n);
            &&& g.len() == n
            &&& 0 <= g[i] <= i
            &&& g[g[i]] == g[i]
            &&& g[i] != i ==> threshold.at_most(similarities[i]@[g[i]])
            &&& g[i] != i ==> forall|p: int|
                0 <= p < i && #[trigger] g[p] == p && threshold.at_most(similarities[i]@[p])
                    ==> similarities[i]@[p].total_rank() <= similarities[i]@[g[i]].total_rank()
            &&& g[i] == i ==> forall|p: int|
                0 <= p < i && #[trigger] g[p] == p ==> !threshold.at_most(similarities[i]@[p])
        }),
    decreases n,
{
    let g = groups_of(similarities, threshold, n);
    let before = groups_of(similarities, threshold, (n - 1) as nat);
    lemma_groups_len(similarities, threshold, (n - 1) as nat);
    if i < n - 1 {
        groups_are_named_by_their_first_point(similarities, threshold, (n - 1) as nat, i);
        assert(g[i] == before[i] && g[before[i]] == before[before[i]]);
        assert forall|p: int| 0 <= p < i implies g[p] == before[p] by {}
    } else {
        let reps = reps_of(before);
        let row = similarities[i]@;
        lemma_reps(before);
        lemma_nearest_rep(row, reps, threshold);
        match nearest_rep(row, reps, threshold) {
            Some(b) => {
                let k = choose|k: int| 0 <= k < reps.len() && reps[k] == b;
                assert(before[reps[k]] == b);
                assert(g[b] == before[b]);
                assert forall|p: int|
                    0 <= p < i && #[trigger] g[p] == p && threshold.at_most(
                        row[p],
                    ) implies row[p].total_rank() <= row[g[i]].total_rank() by {
                    assert(before[p] == p);
                    let q = choose|q: int| 0 <= q < reps.len() && reps[q] == p;
                    assert(threshold.at_most(row[reps[q]]));
                }
            },
            None => {
                assert forall|p: int| 0 <= p < i && #[trigger] g[p] == p implies !threshold.at_most(
                    row[p],
                ) by {
                    assert(before[p] == p);
                    let q = choose|q: int| 0 <= q < reps.len() && reps[q] == p;
                    assert(!threshold.at_most(row[reps[q]]));
                }
            },
        }
    }
}

proof fn lemma_groups_len(similarities: Seq<Vec<Single>>, threshold: Single, n: nat)
    ensures
        groups_of(similarities, threshold, n).len() == n,
    decreases n,
{
    if n > 0 {
        lemma_groups_len(similarities, threshold, (n - 1) as nat);
    }
}

proof fn lemma_reps_ascend(groups: Seq<int>)
    ensures
        forall|a: int, b: int|
            0 <= a < b < reps_of(groups).len() ==> reps_of(groups)[a] < reps_of(groups)[b],
    decreases groups.len(),
{
    if groups.len() > 0 {
        let short = groups.drop_last();
        lemma_reps_ascend(short);
        lemma_reps(short);
        let before = reps_of(short);
        let now = reps_of(groups);
        assert forall|a: int, b: int| 0 <= a < b < now.len() implies now[a] < now[b] by {
            if b < before.len() {
                assert(before[a] < before[b]);
            } else {
                assert(now[a] == before[a]);
                assert(0 <= before[a] < short.len());
            }
        }
    }
}

proof fn lemma_last_of_the_nearest(similarities: Seq<Single>, reps: Seq<int>, threshold: Single)
    requires
        forall|a: int, b: int| 0 <= a < b < reps.len() ==> reps[a] < reps[b],
    ensures
        nearest_rep(similarities, reps, threshold) matches Some(b) ==> forall|k: int|
            0 <= k < reps.len() && threshold.at_most(similarities[#[trigger] reps[k]])
                && similarities[reps[k]].total_rank() == similarities[b].total_rank() ==> reps[k]
                <= b,
    decreases reps.len(),
{
    if reps.len() > 0 {
        let short = reps.drop_last();
        let n = reps.len() - 1;
        lemma_last_of_the_nearest(similarities, short, threshold);
        lemma_nearest_rep(similarities, short, threshold);
        if let Some(b) = nearest_rep(similarities, reps, threshold) {
            assert forall|k: int|
                0 <= k < reps.len() && threshold.at_most(similarities[#[trigger] reps[k]])
                    && similarities[reps[k]].total_rank()
                    == similarities[b].total_rank() implies reps[k] <= b by {
                if k < n {
                    assert(short[k] == reps[k]);
                    assert(reps[k] < reps[n]);
                }
            }
        }
    }
}

/// Of representatives that are equally near, the last takes the point.
pub proof fn of_equally_near_ones_the_last_is_taken(
    similarities: Seq<Vec<Single>>,
    threshold: Single,
    n: nat,
    i: int,
    p: int,
)
    requires
        0 <= p < i < n,
        ({
            let g = groups_of(similarities, threshold, n);
            g[i] != i && g[p] == p && threshold.at_most(similarities[i]@[p])
                && similarities[i]@[p].total_rank() == similarities[i]@[g[i]].total_rank()
        }),
    ensures
        p <= groups_of(similarities, threshold, n)[i],
    decreases n,
{
    let g = groups_of(similarities, threshold, n);
    let before = groups_of(similarities, threshold, (n - 1) as nat);
    lemma_groups_len(similarities, threshold, (n - 1) as nat);
    if i < n - 1 {
        assert(g[i] == before[i] && g[p] == before[p]);
        of_equally_near_ones_the_last_is_taken(similarities, threshold, (n - 1) as nat, i, p);
    } else {
        let reps = reps_of(before);
        lemma_reps(before);
        lemma_reps_ascend(before);
        lemma_last_of_the_nearest(similarities[i]@, reps, threshold);
        assert(before[p] == p);
        let q = choose|q: int| 0 <= q < reps.len() && reps[q] == p;
        assert(threshold.at_most(similarities[i]@[reps[q]]));
    }
}

}
