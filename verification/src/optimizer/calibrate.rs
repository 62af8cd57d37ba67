//! `WITH RECALL`: sampled threshold calibration.
//!
//! A lossy pre-filter is an approximation, and is treated as one: given a recall
//! target, sample rows that survive the free predicates, get ground-truth labels
//! from the model reading the full text, and set the index threshold so the
//! target fraction of true matches survives. Labels are ordinary full-text
//! verify verdicts, so they land in, and draw from, the verdict cache.
//!
//! The target fraction of the sample's matches is a whole number of them, which
//! is what this module works with.

use vstd::prelude::*;
use vstd::seq_lib::to_multiset_remove;

use crate::number::Single;
use crate::sort::{order, sort, sorted, sorting_keeps_the_values, Ordered};

verus! {

/// How many free-predicate-surviving documents get ground-truth labels. The
/// calibration cost ceiling: one full-text model call per uncached document.
pub const DEFAULT_CALIBRATION_SAMPLE: usize = 64;

/// What a calibration found.
#[derive(Debug, Clone, Copy, PartialEq, Eq, Structural)]
pub struct Calibration {
    /// Index score threshold that meets the recall target on the sample.
    pub threshold: Single,
    /// Rows labeled to establish it, which is the calibration cost.
    pub sampled_rows: usize,
    /// The sample's true matches that stay in the funnel.
    pub kept: usize,
    /// All of the sample's true matches. The estimated recall is `kept` out of
    /// `total`, and perfect where there is none.
    pub total: usize,
}

/// Per-document outcomes of labeling a sample against the index.
#[derive(Debug, Clone, PartialEq)]
pub struct SampledScores {
    /// Best chunk score of each positive-labeled document the index search
    /// returned. Order doesn't matter.
    pub positive_scores: Vec<Single>,
    /// Positive documents the index has never seen: the scan passes them
    /// through to verify at any floor, so they help recall for free.
    pub positive_unindexed: usize,
    /// Positive documents that are indexed but fell outside the search's
    /// `fetch_k`: lost at any floor.
    pub positive_lost: usize,
    /// Total documents labeled, positive and negative.
    pub sampled: usize,
}

impl SampledScores {
    /// All true matches of the sample.
    pub open spec fn matches(&self) -> int {
        self.positive_scores.len() + self.positive_unindexed + self.positive_lost
    }

    /// An empty sample.
    pub fn new() -> (r: SampledScores)
        ensures
            r.positive_scores@ == Seq::<Single>::empty(),
            r.positive_unindexed == 0,
            r.positive_lost == 0,
            r.sampled == 0,
    {
        SampledScores {
            positive_scores: Vec::new(),
            positive_unindexed: 0,
            positive_lost: 0,
            sampled: 0,
        }
    }

    /// All true matches of the sample.
    pub fn total(&self) -> (r: usize)
        requires
            self.matches() <= usize::MAX,
        ensures
            r == self.matches(),
    {
        self.positive_scores.len() + self.positive_unindexed + self.positive_lost
    }
}

/// A score, ordered from the highest to the lowest.
#[derive(Debug, Clone, Copy, PartialEq, Eq, Structural)]
pub struct HighFirst {
    pub score: Single,
}

impl Ordered for HighFirst {
    open spec fn le(a: HighFirst, b: HighFirst) -> bool {
        b.score.total_rank() <= a.score.total_rank()
    }

    proof fn lemma_total() {
        assert forall|a: HighFirst, b: HighFirst| #[trigger]
            HighFirst::le(a, b) && #[trigger] HighFirst::le(b, a) implies a == b by {
            assert(a.score.bits == b.score.bits);
        }
    }

    fn precedes(&self, other: &HighFirst) -> (r: bool) {
        other.score.total_le(self.score)
    }
}

pub open spec fn high_first(scores: Seq<Single>) -> Seq<HighFirst> {
    scores.map_values(|s: Single| HighFirst { score: s })
}

/// The scores from the highest to the lowest.
pub open spec fn ranked(scores: Seq<Single>) -> Seq<HighFirst> {
    sorted(high_first(scores))
}

/// How many scores are at least a threshold.
pub open spec fn survivors(scores: Seq<HighFirst>, threshold: Single) -> nat
    decreases scores.len(),
{
    if scores.len() == 0 {
        0
    } else {
        survivors(scores.drop_last(), threshold) + if threshold.at_most(scores.last().score) {
            1nat
        } else {
            0nat
        }
    }
}

/// How many scored matches must survive for `wanted` to, once the unindexed
/// ones, which survive any floor, are counted.
pub open spec fn needed(wanted: int, unindexed: int) -> int {
    if wanted <= unindexed {
        0
    } else {
        wanted - unindexed
    }
}

/// The threshold that keeps `wanted` true matches of a sample.
pub open spec fn threshold_for(
    wanted: int,
    default_floor: Single,
    scores: Seq<Single>,
    unindexed: int,
) -> Single {
    let need = needed(wanted, unindexed);
    if need == 0 {
        default_floor
    } else if need > scores.len() {
        if scores.len() == 0 {
            default_floor
        } else {
            ranked(scores).last().score
        }
    } else {
        ranked(scores)[need - 1].score
    }
}

/// Pick the highest score floor that keeps at least `wanted` of the sample's
/// true matches in the funnel. The sample is the authority: no clamping toward
/// `default_floor`, which is only the fallback when the sample says nothing (no
/// positives at all, or none the floor can affect).
pub fn calibrate_threshold(wanted: usize, default_floor: Single, scores: &SampledScores) -> (r:
    Calibration)
    requires
        scores.matches() <= usize::MAX,
    ensures
        r.sampled_rows == scores.sampled,
        r.total == scores.matches(),
        r.total == 0 ==> r.threshold == default_floor && r.kept == 0,
        r.total > 0 ==> r.threshold == threshold_for(
            wanted as int,
            default_floor,
            scores.positive_scores@,
            scores.positive_unindexed as int,
        ),
        r.total > 0 ==> r.kept == survivors(high_first(scores.positive_scores@), r.threshold)
            + scores.positive_unindexed,
{
    let total: usize = scores.total();
    if total == 0 {
        // No evidence to raise the floor with: keep the default, for recall is
        // vacuously met.
        return Calibration {
            threshold: default_floor,
            sampled_rows: scores.sampled,
            kept: 0,
            total,
        };
    }
    let ghost all = high_first(scores.positive_scores@);
    let mut list: Vec<HighFirst> = Vec::new();
    let mut i: usize = 0;
    while i < scores.positive_scores.len()
        invariant
            i <= scores.positive_scores.len(),
            all == high_first(scores.positive_scores@),
            list@ == all.take(i as int),
        decreases scores.positive_scores.len() - i,
    {
        list.push(HighFirst { score: scores.positive_scores[i] });
        i += 1;
    }
    assert(all.take(i as int) == all);
    let positive = sort(&list);
    proof {
        sorting_keeps_the_values(all);
    }
    let need: usize = if wanted <= scores.positive_unindexed {
        0
    } else {
        wanted - scores.positive_unindexed
    };
    let threshold: Single = if need == 0 {
        // Passthroughs alone meet the target: a degenerate sample, not a
        // license to prune aggressively.
        default_floor
    } else if need > positive.len() {
        // Unachievable: positives beyond the search are lost at any floor. Keep
        // every scored positive and report the shortfall honestly.
        if positive.len() == 0 {
            default_floor
        } else {
            positive[positive.len() - 1].score
        }
    } else {
        // Survival downstream is `score >= threshold`, so the needed-th highest
        // positive score keeps at least as many; ties only help.
        positive[need - 1].score
    };
    let mut surviving: usize = 0;
    let mut k: usize = 0;
    while k < list.len()
        invariant
            k <= list.len(),
            list@ == all,
            surviving == survivors(all.take(k as int), threshold),
            surviving <= k,
        decreases list.len() - k,
    {
        assert(all.take(k + 1).drop_last() == all.take(k as int));
        if threshold.le(list[k].score) {
            surviving = surviving + 1;
        }
        k += 1;
    }
    assert(all.take(k as int) == all);
    Calibration {
        threshold,
        sampled_rows: scores.sampled,
        kept: surviving + scores.positive_unindexed,
        total,
    }
}

proof fn lemma_survivors_remove(scores: Seq<HighFirst>, i: int, threshold: Single)
    requires
        0 <= i < scores.len(),
    ensures
        survivors(scores, threshold) == survivors(scores.remove(i), threshold)
            + if threshold.at_most(scores[i].score) {
            1nat
        } else {
            0nat
        },
    decreases scores.len(),
{
    if i == scores.len() - 1 {
        assert(scores.remove(i) == scores.drop_last());
    } else {
        lemma_survivors_remove(scores.drop_last(), i, threshold);
        assert(scores.remove(i).drop_last() == scores.drop_last().remove(i));
        assert(scores.remove(i).last() == scores.last());
    }
}

/// How many survive does not depend on the order of the scores.
proof fn lemma_survivors_permute(a: Seq<HighFirst>, b: Seq<HighFirst>, threshold: Single)
    requires
        a.to_multiset() == b.to_multiset(),
    ensures
        survivors(a, threshold) == survivors(b, threshold),
    decreases a.len(),
{
    broadcast use vstd::seq_lib::group_to_multiset_ensures;

    assert(a.len() == a.to_multiset().len());
    assert(b.len() == b.to_multiset().len());
    if a.len() > 0 {
        let x = a.last();
        assert(a.to_multiset().count(x) > 0);
        assert(b.contains(x));
        let i = choose|i: int| 0 <= i < b.len() && b[i] == x;
        assert(a.remove(a.len() - 1) == a.drop_last());
        to_multiset_remove(a, a.len() - 1);
        to_multiset_remove(b, i);
        lemma_survivors_permute(a.drop_last(), b.remove(i), threshold);
        lemma_survivors_remove(b, i, threshold);
    }
}

/// In scores from the highest to the lowest, everything up to a place survives
/// the threshold of that place.
proof fn lemma_prefix_survives(scores: Seq<HighFirst>, n: int, threshold: Single)
    requires
        0 <= n <= scores.len(),
        forall|i: int| 0 <= i < n ==> threshold.at_most((#[trigger] scores[i]).score),
    ensures
        survivors(scores, threshold) >= n,
    decreases scores.len(),
{
    if scores.len() > 0 {
        if n == scores.len() {
            lemma_prefix_survives(scores.drop_last(), n - 1, threshold);
        } else {
            lemma_prefix_survives(scores.drop_last(), n, threshold);
        }
    }
}

proof fn lemma_rest_falls(scores: Seq<HighFirst>, n: int, threshold: Single)
    requires
        0 <= n <= scores.len(),
        forall|i: int| n <= i < scores.len() ==> !threshold.at_most((#[trigger] scores[i]).score),
    ensures
        survivors(scores, threshold) <= n,
    decreases scores.len(),
{
    if scores.len() > n {
        lemma_rest_falls(scores.drop_last(), n, threshold);
    } else if scores.len() > 0 {
        lemma_rest_falls(scores.drop_last(), n - 1, threshold);
    }
}

/// The recall target is kept on the sample: where enough true matches can
/// survive at all, the calibrated threshold keeps at least `wanted` of them.
pub proof fn the_target_is_kept(
    wanted: int,
    default_floor: Single,
    scores: Seq<Single>,
    unindexed: int,
)
    requires
        0 <= unindexed,
        wanted <= scores.len() + unindexed,
        forall|i: int| 0 <= i < scores.len() ==> !(#[trigger] scores[i]).is_nan(),
    ensures
        survivors(
            high_first(scores),
            threshold_for(wanted, default_floor, scores, unindexed),
        ) + unindexed >= wanted,
{
    let need = needed(wanted, unindexed);
    if need > 0 {
        let all = high_first(scores);
        let high = ranked(scores);
        sorting_keeps_the_values(all);
        let t = threshold_for(wanted, default_floor, scores, unindexed);
        lemma_ranked_are_numbers(scores);
        assert forall|i: int| 0 <= i < need implies t.at_most((#[trigger] high[i]).score) by {
            let leq = order::<HighFirst>();
            assert(i == need - 1 || leq(high[i], high[need - 1]));
            assert(!high[i].score.is_nan() && !high[need - 1].score.is_nan());
        }
        lemma_prefix_survives(high, need, t);
        lemma_survivors_permute(all, high, t);
    }
}

/// No higher floor would do: where scored matches are needed, any threshold
/// above the calibrated one keeps fewer than `wanted`.
pub proof fn no_higher_floor_keeps_the_target(
    wanted: int,
    default_floor: Single,
    scores: Seq<Single>,
    unindexed: int,
    higher: Single,
)
    requires
        0 <= unindexed < wanted,
        wanted <= scores.len() + unindexed,
        forall|i: int| 0 <= i < scores.len() ==> !(#[trigger] scores[i]).is_nan(),
        threshold_for(wanted, default_floor, scores, unindexed).below(higher),
    ensures
        survivors(high_first(scores), higher) + unindexed < wanted,
{
    let need = needed(wanted, unindexed);
    let all = high_first(scores);
    let high = ranked(scores);
    sorting_keeps_the_values(all);
    lemma_ranked_are_numbers(scores);
    assert forall|i: int| need - 1 <= i < high.len() implies !higher.at_most(
        (#[trigger] high[i]).score,
    ) by {
        let leq = order::<HighFirst>();
        assert(i == need - 1 || leq(high[need - 1], high[i]));
        assert(!high[i].score.is_nan() && !high[need - 1].score.is_nan());
    }
    lemma_rest_falls(high, need - 1, higher);
    lemma_survivors_permute(all, high, higher);
}

proof fn lemma_ranked_are_numbers(scores: Seq<Single>)
    requires
        forall|i: int| 0 <= i < scores.len() ==> !(#[trigger] scores[i]).is_nan(),
    ensures
        ranked(scores).len() == scores.len(),
        forall|i: int| 0 <= i < scores.len() ==> !(#[trigger] ranked(scores)[i]).score.is_nan(),
{
    let all = high_first(scores);
    sorting_keeps_the_values(all);
    assert forall|i: int| 0 <= i < scores.len() implies !(
    #[trigger] ranked(scores)[i]).score.is_nan() by {
        let x = ranked(scores)[i];
        assert(sorted(all).contains(x));
        assert(all.contains(x));
        let k = choose|k: int| 0 <= k < all.len() && all[k] == x;
        assert(!scores[k].is_nan());
    }
}

/// The survivors of a floor are the scores that reach it, each counted.
pub proof fn survivors_reach_the_floor(scores: Seq<Single>, threshold: Single)
    ensures
        survivors(high_first(scores), threshold) == scores.filter(
            |s: Single| threshold.at_most(s),
        ).len(),
    decreases scores.len(),
{
    reveal(Seq::filter);
    if scores.len() > 0 {
        survivors_reach_the_floor(scores.drop_last(), threshold);
        assert(high_first(scores).drop_last() =~= high_first(scores.drop_last()));
    }
}

/// Where nothing more is needed the usual floor stays, and where more is needed
/// than there is, every scored match is kept.
pub proof fn a_floor_is_moved_only_where_it_helps(
    wanted: int,
    default_floor: Single,
    scores: Seq<Single>,
    unindexed: int,
)
    requires
        0 <= unindexed,
        forall|i: int| 0 <= i < scores.len() ==> !(#[trigger] scores[i]).is_nan(),
    ensures
        wanted <= unindexed || scores.len() == 0 ==> threshold_for(
            wanted,
            default_floor,
            scores,
            unindexed,
        ) == default_floor,
        wanted > unindexed + scores.len() && scores.len() > 0 ==> forall|i: int|
            0 <= i < scores.len() ==> threshold_for(
                wanted,
                default_floor,
                scores,
                unindexed,
            ).at_most(#[trigger] scores[i]),
{
    if wanted > unindexed + scores.len() && scores.len() > 0 {
        let all = high_first(scores);
        let high = ranked(scores);
        sorting_keeps_the_values(all);
        lemma_ranked_are_numbers(scores);
        let last = high.len() - 1;
        let leq = order::<HighFirst>();
        assert forall|i: int| 0 <= i < scores.len() implies threshold_for(
            wanted,
            default_floor,
            scores,
            unindexed,
        ).at_most(#[trigger] scores[i]) by {
            assert(all[i].score == scores[i]);
            assert(all.contains(all[i]));
            assert(sorted(all).contains(all[i]));
            let k = choose|k: int| 0 <= k < high.len() && high[k] == all[i];
            assert(k == last || leq(high[k], high[last]));
            assert(!high[k].score.is_nan() && !high[last].score.is_nan());
        }
    }
}

}
