//! Funnel progress: turns the live counters of a running plan's semantic
//! operators into lines for people.

use vstd::prelude::*;

use crate::text::{
    a_framed_text_stands_in_the_whole, a_part_of_a_part_is_a_part, decimal, join, joined,
    joining_keeps_every_part, occurs_in, push_decimal, same, trim, trimmed, views,
};

verus! {

/// Counter totals across all partitions of the semantic operators. The `has_*`
/// flags tell an absent operator from one that has counted nothing yet.
#[derive(Debug, Clone, Copy, PartialEq, Eq, Structural)]
pub struct FunnelCounts {
    pub has_index_scan: bool,
    pub index_hits: usize,
    pub rows_pruned: usize,
    pub calibration_sampled_rows: usize,
    pub calibration_model_calls: usize,
    pub has_verify: bool,
    pub model_calls: usize,
    pub cache_hits: usize,
    pub rows_dropped: usize,
    pub has_extract: bool,
    pub extract_model_calls: usize,
    pub extract_cache_hits: usize,
    pub extract_rows_failed: usize,
    pub extract_fields_failed: usize,
    pub has_cluster: bool,
    pub cluster_groups: usize,
    pub cluster_model_calls: usize,
    pub cluster_cache_hits: usize,
    /// Rows that the index has never seen. Clustering gives them a NULL label
    /// rather than a group, so a count above zero means a gap until refresh.
    pub cluster_unindexed_rows: usize,
    pub cluster_labels_failed: usize,
    pub has_classify: bool,
    pub classify_model_calls: usize,
    pub classify_cache_hits: usize,
    pub classify_rows_gated: usize,
    pub classify_rows_failed: usize,
    pub classify_branches_failed: usize,
    pub has_rank: bool,
    pub rank_candidate_rows: usize,
    pub rank_rows_pruned: usize,
    /// Rows that the index has never seen. A rank drops them, so a count above
    /// zero means results are missing until the index is refreshed.
    pub rank_unindexed_rows: usize,
    pub rank_model_calls: usize,
    pub rank_cache_hits: usize,
    pub rank_rows_failed: usize,
}

impl Default for FunnelCounts {
    fn default() -> (r: FunnelCounts)
        ensures
            !r.has_index_scan,
            r.index_hits == 0,
            r.rows_pruned == 0,
            r.calibration_sampled_rows == 0,
            r.calibration_model_calls == 0,
            !r.has_verify,
            r.model_calls == 0,
            r.cache_hits == 0,
            r.rows_dropped == 0,
            !r.has_extract,
            r.extract_model_calls == 0,
            r.extract_cache_hits == 0,
            r.extract_rows_failed == 0,
            r.extract_fields_failed == 0,
            !r.has_cluster,
            r.cluster_groups == 0,
            r.cluster_model_calls == 0,
            r.cluster_cache_hits == 0,
            r.cluster_unindexed_rows == 0,
            r.cluster_labels_failed == 0,
            !r.has_classify,
            r.classify_model_calls == 0,
            r.classify_cache_hits == 0,
            r.classify_rows_gated == 0,
            r.classify_rows_failed == 0,
            r.classify_branches_failed == 0,
            !r.has_rank,
            r.rank_candidate_rows == 0,
            r.rank_rows_pruned == 0,
            r.rank_unindexed_rows == 0,
            r.rank_model_calls == 0,
            r.rank_cache_hits == 0,
            r.rank_rows_failed == 0,
    {
        FunnelCounts {
            has_index_scan: false,
            index_hits: 0,
            rows_pruned: 0,
            calibration_sampled_rows: 0,
            calibration_model_calls: 0,
            has_verify: false,
            model_calls: 0,
            cache_hits: 0,
            rows_dropped: 0,
            has_extract: false,
            extract_model_calls: 0,
            extract_cache_hits: 0,
            extract_rows_failed: 0,
            extract_fields_failed: 0,
            has_cluster: false,
            cluster_groups: 0,
            cluster_model_calls: 0,
            cluster_cache_hits: 0,
            cluster_unindexed_rows: 0,
            cluster_labels_failed: 0,
            has_classify: false,
            classify_model_calls: 0,
            classify_cache_hits: 0,
            classify_rows_gated: 0,
            classify_rows_failed: 0,
            classify_branches_failed: 0,
            has_rank: false,
            rank_candidate_rows: 0,
            rank_rows_pruned: 0,
            rank_unindexed_rows: 0,
            rank_model_calls: 0,
            rank_cache_hits: 0,
            rank_rows_failed: 0,
        }
    }
}

impl FunnelCounts {
    pub open spec fn semantic(self) -> bool {
        self.has_index_scan || self.has_verify || self.has_extract || self.has_rank
            || self.has_classify || self.has_cluster
    }

    /// Whether the plan has any semantic operator.
    pub fn is_semantic(&self) -> (r: bool)
        ensures
            r == self.semantic(),
    {
        self.has_index_scan || self.has_verify || self.has_extract || self.has_rank
            || self.has_classify || self.has_cluster
    }
}

/// What the engine emits while a statement runs. The counts travel unrendered,
/// so that a batch job can store them as columns.
#[derive(Debug, Clone, PartialEq, Eq)]
pub enum ProgressEvent {
    /// One line of the plan summary.
    Plan(String),
    /// Counters moved since the last tick.
    Funnel(FunnelCounts),
    /// Final totals.
    Done(FunnelCounts),
}

/// A counter of an operator.
#[derive(Debug)]
pub struct Metric {
    pub name: String,
    pub value: usize,
}

/// An operator of a running plan: its name, the line that it is shown by, its
/// counters, where it has any, and its inputs.
#[derive(Debug)]
pub struct ExecNode {
    pub name: String,
    pub line: String,
    pub metrics: Vec<Metric>,
    pub children: Vec<ExecNode>,
}

/// A number, as far as the machine can count.
pub open spec fn capped(n: nat) -> usize {
    if n <= usize::MAX {
        n as usize
    } else {
        usize::MAX
    }
}

/// The sum of the counters of a name.
pub open spec fn metric_total(metrics: Seq<Metric>, counter: Seq<char>) -> nat
    decreases metrics.len(),
{
    if metrics.len() == 0 {
        0
    } else {
        metric_total(metrics.drop_last(), counter) + if metrics.last().name@ == counter {
            metrics.last().value as nat
        } else {
            0nat
        }
    }
}

/// The sum of a counter over the operators of a name in a plan.
pub open spec fn tree_total(node: ExecNode, op: Seq<char>, counter: Seq<char>) -> nat
    decreases node, 0nat,
{
    (if node.name@ == op {
        metric_total(node.metrics@, counter)
    } else {
        0nat
    }) + forest_total(node.children@, op, counter)
}

/// The sum of a counter over the operators of a name in some plans.
pub open spec fn forest_total(nodes: Seq<ExecNode>, op: Seq<char>, counter: Seq<char>) -> nat
    decreases nodes, 1nat,
{
    if nodes.len() == 0 {
        0
    } else {
        forest_total(nodes.drop_last(), op, counter) + tree_total(nodes.last(), op, counter)
    }
}

/// Whether a plan has an operator of a name.
pub open spec fn tree_has(node: ExecNode, op: Seq<char>) -> bool
    decreases node, 0nat,
{
    node.name@ == op || forest_has(node.children@, op)
}

/// Whether some plans have an operator of a name.
pub open spec fn forest_has(nodes: Seq<ExecNode>, op: Seq<char>) -> bool
    decreases nodes, 1nat,
{
    nodes.len() > 0 && (forest_has(nodes.drop_last(), op) || tree_has(nodes.last(), op))
}

/// The counts of a plan.
pub open spec fn counts_of(plan: ExecNode) -> FunnelCounts {
    FunnelCounts {
        has_index_scan: tree_has(plan, "IndexScanExec"@),
        index_hits: capped(tree_total(plan, "IndexScanExec"@, "index_hits"@)),
        rows_pruned: capped(tree_total(plan, "IndexScanExec"@, "rows_pruned"@)),
        calibration_sampled_rows: capped(
            tree_total(plan, "IndexScanExec"@, "calibration_sampled_rows"@),
        ),
        calibration_model_calls: capped(
            tree_total(plan, "IndexScanExec"@, "calibration_model_calls"@),
        ),
        has_verify: tree_has(plan, "VerifyExec"@),
        model_calls: capped(tree_total(plan, "VerifyExec"@, "model_calls"@)),
        cache_hits: capped(tree_total(plan, "VerifyExec"@, "cache_hits"@)),
        rows_dropped: capped(tree_total(plan, "VerifyExec"@, "rows_dropped"@)),
        has_extract: tree_has(plan, "SemExtractExec"@),
        extract_model_calls: capped(tree_total(plan, "SemExtractExec"@, "model_calls"@)),
        extract_cache_hits: capped(tree_total(plan, "SemExtractExec"@, "cache_hits"@)),
        extract_rows_failed: capped(tree_total(plan, "SemExtractExec"@, "rows_failed"@)),
        extract_fields_failed: capped(tree_total(plan, "SemExtractExec"@, "fields_failed"@)),
        has_cluster: tree_has(plan, "SemClusterExec"@),
        cluster_groups: capped(tree_total(plan, "SemClusterExec"@, "groups"@)),
        cluster_model_calls: capped(tree_total(plan, "SemClusterExec"@, "model_calls"@)),
        cluster_cache_hits: capped(tree_total(plan, "SemClusterExec"@, "cache_hits"@)),
        cluster_unindexed_rows: capped(tree_total(plan, "SemClusterExec"@, "unindexed_rows"@)),
        cluster_labels_failed: capped(tree_total(plan, "SemClusterExec"@, "labels_failed"@)),
        has_classify: tree_has(plan, "SemClassifyExec"@),
        classify_model_calls: capped(tree_total(plan, "SemClassifyExec"@, "model_calls"@)),
        classify_cache_hits: capped(tree_total(plan, "SemClassifyExec"@, "cache_hits"@)),
        classify_rows_gated: capped(tree_total(plan, "SemClassifyExec"@, "rows_gated"@)),
        classify_rows_failed: capped(tree_total(plan, "SemClassifyExec"@, "rows_failed"@)),
        classify_branches_failed: capped(tree_total(plan, "SemClassifyExec"@, "branches_failed"@)),
        has_rank: tree_has(plan, "SemRankExec"@),
        rank_candidate_rows: capped(tree_total(plan, "SemRankExec"@, "candidate_rows"@)),
        rank_rows_pruned: capped(tree_total(plan, "SemRankExec"@, "rows_pruned"@)),
        rank_unindexed_rows: capped(tree_total(plan, "SemRankExec"@, "unindexed_rows"@)),
        rank_model_calls: capped(tree_total(plan, "SemRankExec"@, "model_calls"@)),
        rank_cache_hits: capped(tree_total(plan, "SemRankExec"@, "cache_hits"@)),
        rank_rows_failed: capped(tree_total(plan, "SemRankExec"@, "rows_failed"@)),
    }
}

/// Whether a name is that of a semantic operator.
pub open spec fn semcast_operator(name: Seq<char>) -> bool {
    name == "IndexScanExec"@ || name == "VerifyExec"@ || name == "SemExtractExec"@ || name
        == "SemRankExec"@ || name == "SemClassifyExec"@ || name == "SemClusterExec"@
}

/// The summary lines of a plan: one per semantic operator, from the top down.
pub open spec fn summary_of(node: ExecNode) -> Seq<Seq<char>>
    decreases node, 0nat,
{
    (if semcast_operator(node.name@) {
        seq!["funnel: "@ + trimmed(node.line@)]
    } else {
        Seq::empty()
    }) + summaries_of(node.children@)
}

/// The summary lines of some plans, one after another.
pub open spec fn summaries_of(nodes: Seq<ExecNode>) -> Seq<Seq<char>>
    decreases nodes, 1nat,
{
    if nodes.len() == 0 {
        Seq::empty()
    } else {
        summaries_of(nodes.drop_last()) + summary_of(nodes.last())
    }
}

/// The sum of the counters of a name.
fn counter_total(metrics: &Vec<Metric>, counter: &str) -> (r: usize)
    ensures
        r == capped(metric_total(metrics@, counter@)),
{
    let mut sum: usize = 0;
    let mut i: usize = 0;
    while i < metrics.len()
        invariant
            i <= metrics.len(),
            sum == capped(metric_total(metrics@.take(i as int), counter@)),
        decreases metrics.len() - i,
    {
        assert(metrics@.take(i + 1).drop_last() == metrics@.take(i as int));
        if same(metrics[i].name.as_str(), counter) {
            sum = sum.saturating_add(metrics[i].value);
        }
        i += 1;
    }
    assert(metrics@.take(i as int) == metrics@);
    sum
}

/// The sum of a counter over the operators of a name in a plan.
fn total(node: &ExecNode, op: &str, counter: &str) -> (r: usize)
    ensures
        r == capped(tree_total(*node, op@, counter@)),
    decreases node,
{
    let mut sum: usize = if same(node.name.as_str(), op) {
        counter_total(&node.metrics, counter)
    } else {
        0
    };
    let ghost own: nat = if node.name@ == op@ {
        metric_total(node.metrics@, counter@)
    } else {
        0
    };
    let ghost all = node.children@;
    let mut i: usize = 0;
    while i < node.children.len()
        invariant
            i <= node.children.len(),
            all == node.children@,
            sum == capped(own + forest_total(all.take(i as int), op@, counter@)),
        decreases node.children.len() - i,
    {
        assert(all.take(i + 1).drop_last() == all.take(i as int));
        assert(all.take(i + 1).last() == all[i as int]);
        assert(decreases_to!(*node => node.children@[i as int]));
        sum = sum.saturating_add(total(&node.children[i], op, counter));
        i += 1;
    }
    assert(all.take(i as int) == all);
    sum
}

proof fn lemma_has_prefix(nodes: Seq<ExecNode>, n: int, op: Seq<char>)
    requires
        0 <= n <= nodes.len(),
        forest_has(nodes.take(n), op),
    ensures
        forest_has(nodes, op),
    decreases nodes.len(),
{
    if n == nodes.len() {
        assert(nodes.take(n) == nodes);
    } else {
        assert(nodes.drop_last().take(n) == nodes.take(n));
        lemma_has_prefix(nodes.drop_last(), n, op);
    }
}

/// Whether a plan has an operator of a name.
fn has_operator(node: &ExecNode, op: &str) -> (r: bool)
    ensures
        r == tree_has(*node, op@),
    decreases node,
{
    if same(node.name.as_str(), op) {
        return true;
    }
    let ghost all = node.children@;
    let mut i: usize = 0;
    while i < node.children.len()
        invariant
            i <= node.children.len(),
            all == node.children@,
            node.name@ != op@,
            !forest_has(all.take(i as int), op@),
        decreases node.children.len() - i,
    {
        assert(all.take(i + 1).drop_last() == all.take(i as int));
        assert(all.take(i + 1).last() == all[i as int]);
        assert(decreases_to!(*node => node.children@[i as int]));
        if has_operator(&node.children[i], op) {
            proof {
                lemma_has_prefix(all, i + 1, op@);
            }
            return true;
        }
        i += 1;
    }
    assert(all.take(i as int) == all);
    false
}

/// The counts of a plan, as they are now.
pub fn snapshot(plan: &ExecNode) -> (r: FunnelCounts)
    ensures
        r == counts_of(*plan),
{
    FunnelCounts {
        has_index_scan: has_operator(plan, "IndexScanExec"),
        index_hits: total(plan, "IndexScanExec", "index_hits"),
        rows_pruned: total(plan, "IndexScanExec", "rows_pruned"),
        calibration_sampled_rows: total(plan, "IndexScanExec", "calibration_sampled_rows"),
        calibration_model_calls: total(plan, "IndexScanExec", "calibration_model_calls"),
        has_verify: has_operator(plan, "VerifyExec"),
        model_calls: total(plan, "VerifyExec", "model_calls"),
        cache_hits: total(plan, "VerifyExec", "cache_hits"),
        rows_dropped: total(plan, "VerifyExec", "rows_dropped"),
        has_extract: has_operator(plan, "SemExtractExec"),
        extract_model_calls: total(plan, "SemExtractExec", "model_calls"),
        extract_cache_hits: total(plan, "SemExtractExec", "cache_hits"),
        extract_rows_failed: total(plan, "SemExtractExec", "rows_failed"),
        extract_fields_failed: total(plan, "SemExtractExec", "fields_failed"),
        has_cluster: has_operator(plan, "SemClusterExec"),
        cluster_groups: total(plan, "SemClusterExec", "groups"),
        cluster_model_calls: total(plan, "SemClusterExec", "model_calls"),
        cluster_cache_hits: total(plan, "SemClusterExec", "cache_hits"),
        cluster_unindexed_rows: total(plan, "SemClusterExec", "unindexed_rows"),
        cluster_labels_failed: total(plan, "SemClusterExec", "labels_failed"),
        has_classify: has_operator(plan, "SemClassifyExec"),
        classify_model_calls: total(plan, "SemClassifyExec", "model_calls"),
        classify_cache_hits: total(plan, "SemClassifyExec", "cache_hits"),
        classify_rows_gated: total(plan, "SemClassifyExec", "rows_gated"),
        classify_rows_failed: total(plan, "SemClassifyExec", "rows_failed"),
        classify_branches_failed: total(plan, "SemClassifyExec", "branches_failed"),
        has_rank: has_operator(plan, "SemRankExec"),
        rank_candidate_rows: total(plan, "SemRankExec", "candidate_rows"),
        rank_rows_pruned: total(plan, "SemRankExec", "rows_pruned"),
        rank_unindexed_rows: total(plan, "SemRankExec", "unindexed_rows"),
        rank_model_calls: total(plan, "SemRankExec", "model_calls"),
        rank_cache_hits: total(plan, "SemRankExec", "cache_hits"),
        rank_rows_failed: total(plan, "SemRankExec", "rows_failed"),
    }
}

fn collect_summary(node: &ExecNode, out: &mut Vec<String>)
    ensures
        views(final(out)@) == views(old(out)@) + summary_of(*node),
    decreases node,
{
    let ghost start = views(out@);
    let name = node.name.as_str();
    let ghost mut own: Seq<Seq<char>> = Seq::empty();
    if same(name, "IndexScanExec") || same(name, "VerifyExec") || same(name, "SemExtractExec")
        || same(name, "SemRankExec") || same(name, "SemClassifyExec") || same(
        name,
        "SemClusterExec",
    ) {
        let shown = trim(node.line.as_str());
        let line = "funnel: ".to_owned().concat(shown.as_str());
        out.push(line);
        proof {
            own = seq![line@];
        }
    }
    assert(views(out@) =~= start + own);
    let ghost all = node.children@;
    let mut i: usize = 0;
    assert(start + (own + Seq::<Seq<char>>::empty()) =~= start + own);
    while i < node.children.len()
        invariant
            i <= node.children.len(),
            all == node.children@,
            views(out@) == start + (own + summaries_of(all.take(i as int))),
        decreases node.children.len() - i,
    {
        assert(all.take(i + 1).drop_last() == all.take(i as int));
        assert(all.take(i + 1).last() == all[i as int]);
        assert(decreases_to!(*node => node.children@[i as int]));
        let ghost before = summaries_of(all.take(i as int));
        collect_summary(&node.children[i], out);
        assert(start + (own + before) + summary_of(all[i as int]) =~= start + (own + (before
            + summary_of(all[i as int]))));
        i += 1;
    }
    assert(all.take(i as int) == all);
}

/// One `funnel:` line per semantic operator, from the top down: the plan's own
/// text, which already states the ceiling of model calls.
pub fn funnel_summary(plan: &ExecNode) -> (r: Vec<String>)
    ensures
        views(r@) == summary_of(*plan),
{
    let mut out: Vec<String> = Vec::new();
    assert(views(out@) =~= Seq::<Seq<char>>::empty());
    collect_summary(plan, &mut out);
    assert(Seq::<Seq<char>>::empty() + summary_of(*plan) =~= summary_of(*plan));
    out
}

/// A progress event if the counters moved since the last one.
pub fn snapshot_if_changed(plan: &ExecNode, last: &mut FunnelCounts) -> (r: Option<ProgressEvent>)
    ensures
        ({
            let now = counts_of(*plan);
            if now == *old(last) || !now.semantic() {
                r is None && *final(last) == *old(last)
            } else {
                r == Some(ProgressEvent::Funnel(now)) && *final(last) == now
            }
        }),
{
    let now = snapshot(plan);
    if now == *last || !now.is_semantic() {
        return None;
    }
    *last = now;
    Some(ProgressEvent::Funnel(now))
}

/// The closing event of a plan that has any semantic operator.
pub fn final_totals(plan: &ExecNode) -> (r: Option<ProgressEvent>)
    ensures
        if counts_of(*plan).semantic() {
            r == Some(ProgressEvent::Done(counts_of(*plan)))
        } else {
            r is None
        },
{
    let counts = snapshot(plan);
    if counts.is_semantic() {
        Some(ProgressEvent::Done(counts))
    } else {
        None
    }
}

pub open spec fn index_scan_line(c: FunnelCounts) -> Seq<char> {
    "index scan: "@ + decimal(c.index_hits as nat) + " hits, "@ + decimal(c.rows_pruned as nat)
        + " pruned"@
}

pub open spec fn calibration_line(c: FunnelCounts) -> Seq<char> {
    "calibration: "@ + decimal(c.calibration_sampled_rows as nat) + " rows labeled, "@
        + decimal(c.calibration_model_calls as nat) + " model calls"@
}

pub open spec fn verify_line(c: FunnelCounts) -> Seq<char> {
    "verify: "@ + decimal(c.model_calls as nat) + " model calls, "@ + decimal(c.cache_hits as nat)
        + " cache hits, "@ + decimal(c.rows_dropped as nat) + " dropped"@
}

pub open spec fn extract_line(c: FunnelCounts) -> Seq<char> {
    "extract: "@ + decimal(c.extract_model_calls as nat) + " model calls, "@
        + decimal(c.extract_cache_hits as nat) + " cache hits, "@
        + decimal(c.extract_rows_failed as nat) + " rows failed, "@
        + decimal(c.extract_fields_failed as nat) + " fields failed"@
}

pub open spec fn cluster_line(c: FunnelCounts) -> Seq<char> {
    "cluster: "@ + decimal(c.cluster_groups as nat) + " groups, "@
        + decimal(c.cluster_model_calls as nat) + " model calls, "@
        + decimal(c.cluster_cache_hits as nat) + " cache hits, "@
        + decimal(c.cluster_labels_failed as nat) + " labels failed"@
}

pub open spec fn cluster_gap_line(c: FunnelCounts) -> Seq<char> {
    "cluster: "@ + decimal(c.cluster_unindexed_rows as nat)
        + " rows are not in the semantic index and have no group \u{2014} REFRESH SEMANTIC INDEX to include them"@
}

pub open spec fn classify_line(c: FunnelCounts) -> Seq<char> {
    "classify: "@ + decimal(c.classify_model_calls as nat) + " model calls, "@
        + decimal(c.classify_cache_hits as nat) + " cache hits, "@
        + decimal(c.classify_rows_gated as nat) + " rows gated, "@
        + decimal(c.classify_rows_failed as nat) + " rows failed, "@
        + decimal(c.classify_branches_failed as nat) + " branches failed"@
}

pub open spec fn rank_line(c: FunnelCounts) -> Seq<char> {
    "rank: "@ + decimal(c.rank_candidate_rows as nat) + " candidates, "@
        + decimal(c.rank_rows_pruned as nat) + " pruned, "@ + decimal(c.rank_model_calls as nat)
        + " model calls, "@ + decimal(c.rank_cache_hits as nat) + " cache hits, "@
        + decimal(c.rank_rows_failed as nat) + " rows failed"@
}

pub open spec fn rank_gap_line(c: FunnelCounts) -> Seq<char> {
    "rank: "@ + decimal(c.rank_unindexed_rows as nat)
        + " rows are not in the semantic index and were skipped \u{2014} REFRESH SEMANTIC INDEX to include them"@
}

/// A line, where there is something to say.
pub open spec fn part(say: bool, line: Seq<char>) -> Seq<Seq<char>> {
    if say {
        seq![line]
    } else {
        Seq::empty()
    }
}

/// The parts of the line that counts are shown by. What is missing from a
/// result is invisible in it, so it gets a part of its own rather than a number
/// buried in the funnel.
pub open spec fn parts_of(c: FunnelCounts) -> Seq<Seq<char>> {
    part(c.has_index_scan, index_scan_line(c))
        + part(c.has_index_scan && c.calibration_sampled_rows > 0, calibration_line(c))
        + part(c.has_verify, verify_line(c)) + part(c.has_extract, extract_line(c))
        + part(c.has_cluster, cluster_line(c))
        + part(c.has_cluster && c.cluster_unindexed_rows > 0, cluster_gap_line(c))
        + part(c.has_classify, classify_line(c)) + part(c.has_rank, rank_line(c))
        + part(c.has_rank && c.rank_unindexed_rows > 0, rank_gap_line(c))
}

/// The line that counts are shown by.
pub open spec fn rendered(c: FunnelCounts) -> Seq<char> {
    joined(parts_of(c), "; "@)
}

fn index_scan_text(c: &FunnelCounts) -> (r: String)
    ensures
        r@ == index_scan_line(*c),
{
    let mut line: String = "index scan: ".to_owned();
    push_decimal(&mut line, c.index_hits as u64);
    line.append(" hits, ");
    push_decimal(&mut line, c.rows_pruned as u64);
    line.append(" pruned");
    line
}

fn calibration_text(c: &FunnelCounts) -> (r: String)
    ensures
        r@ == calibration_line(*c),
{
    let mut line: String = "calibration: ".to_owned();
    push_decimal(&mut line, c.calibration_sampled_rows as u64);
    line.append(" rows labeled, ");
    push_decimal(&mut line, c.calibration_model_calls as u64);
    line.append(" model calls");
    line
}

fn verify_text(c: &FunnelCounts) -> (r: String)
    ensures
        r@ == verify_line(*c),
{
    let mut line: String = "verify: ".to_owned();
    push_decimal(&mut line, c.model_calls as u64);
    line.append(" model calls, ");
    push_decimal(&mut line, c.cache_hits as u64);
    line.append(" cache hits, ");
    push_decimal(&mut line, c.rows_dropped as u64);
    line.append(" dropped");
    line
}

fn extract_text(c: &FunnelCounts) -> (r: String)
    ensures
        r@ == extract_line(*c),
{
    let mut line: String = "extract: ".to_owned();
    push_decimal(&mut line, c.extract_model_calls as u64);
    line.append(" model calls, ");
    push_decimal(&mut line, c.extract_cache_hits as u64);
    line.append(" cache hits, ");
    push_decimal(&mut line, c.extract_rows_failed as u64);
    line.append(" rows failed, ");
    push_decimal(&mut line, c.extract_fields_failed as u64);
    line.append(" fields failed");
    line
}

fn cluster_text(c: &FunnelCounts) -> (r: String)
    ensures
        r@ == cluster_line(*c),
{
    let mut line: String = "cluster: ".to_owned();
    push_decimal(&mut line, c.cluster_groups as u64);
    line.append(" groups, ");
    push_decimal(&mut line, c.cluster_model_calls as u64);
    line.append(" model calls, ");
    push_decimal(&mut line, c.cluster_cache_hits as u64);
    line.append(" cache hits, ");
    push_decimal(&mut line, c.cluster_labels_failed as u64);
    line.append(" labels failed");
    line
}

fn cluster_gap_text(c: &FunnelCounts) -> (r: String)
    ensures
        r@ == cluster_gap_line(*c),
{
    let mut line: String = "cluster: ".to_owned();
    push_decimal(&mut line, c.cluster_unindexed_rows as u64);
    line.append(
        " rows are not in the semantic index and have no group \u{2014} REFRESH SEMANTIC INDEX to include them",
    );
    line
}

fn classify_text(c: &FunnelCounts) -> (r: String)
    ensures
        r@ == classify_line(*c),
{
    let mut line: String = "classify: ".to_owned();
    push_decimal(&mut line, c.classify_model_calls as u64);
    line.append(" model calls, ");
    push_decimal(&mut line, c.classify_cache_hits as u64);
    line.append(" cache hits, ");
    push_decimal(&mut line, c.classify_rows_gated as u64);
    line.append(" rows gated, ");
    push_decimal(&mut line, c.classify_rows_failed as u64);
    line.append(" rows failed, ");
    push_decimal(&mut line, c.classify_branches_failed as u64);
    line.append(" branches failed");
    line
}

fn rank_text(c: &FunnelCounts) -> (r: String)
    ensures
        r@ == rank_line(*c),
{
    let mut line: String = "rank: ".to_owned();
    push_decimal(&mut line, c.rank_candidate_rows as u64);
    line.append(" candidates, ");
    push_decimal(&mut line, c.rank_rows_pruned as u64);
    line.append(" pruned, ");
    push_decimal(&mut line, c.rank_model_calls as u64);
    line.append(" model calls, ");
    push_decimal(&mut line, c.rank_cache_hits as u64);
    line.append(" cache hits, ");
    push_decimal(&mut line, c.rank_rows_failed as u64);
    line.append(" rows failed");
    line
}

fn rank_gap_text(c: &FunnelCounts) -> (r: String)
    ensures
        r@ == rank_gap_line(*c),
{
    let mut line: String = "rank: ".to_owned();
    push_decimal(&mut line, c.rank_unindexed_rows as u64);
    line.append(
        " rows are not in the semantic index and were skipped \u{2014} REFRESH SEMANTIC INDEX to include them",
    );
    line
}

fn push_part(parts: &mut Vec<String>, line: String)
    ensures
        views(final(parts)@) == views(old(parts)@) + part(true, line@),
{
    let ghost before = views(parts@);
    parts.push(line);
    assert(views(parts@) =~= before + seq![line@]);
}

/// The line that counts are shown by.
pub fn render(counts: &FunnelCounts) -> (r: String)
    ensures
        r@ == rendered(*counts),
{
    let c = counts;
    let mut parts: Vec<String> = Vec::new();
    let ghost mut so_far: Seq<Seq<char>> = Seq::empty();
    assert(views(parts@) =~= so_far);
    if c.has_index_scan {
        push_part(&mut parts, index_scan_text(c));
    }
    proof {
        assert(views(parts@) =~= so_far + part(c.has_index_scan, index_scan_line(*c)));
        so_far = so_far + part(c.has_index_scan, index_scan_line(*c));
    }
    if c.has_index_scan && c.calibration_sampled_rows > 0 {
        push_part(&mut parts, calibration_text(c));
    }
    proof {
        assert(views(parts@) =~= so_far + part(
            c.has_index_scan && c.calibration_sampled_rows > 0,
            calibration_line(*c),
        ));
        so_far = so_far + part(
            c.has_index_scan && c.calibration_sampled_rows > 0,
            calibration_line(*c),
        );
    }
    if c.has_verify {
        push_part(&mut parts, verify_text(c));
    }
    proof {
        assert(views(parts@) =~= so_far + part(c.has_verify, verify_line(*c)));
        so_far = so_far + part(c.has_verify, verify_line(*c));
    }
    if c.has_extract {
        push_part(&mut parts, extract_text(c));
    }
    proof {
        assert(views(parts@) =~= so_far + part(c.has_extract, extract_line(*c)));
        so_far = so_far + part(c.has_extract, extract_line(*c));
    }
    if c.has_cluster {
        push_part(&mut parts, cluster_text(c));
    }
    proof {
        assert(views(parts@) =~= so_far + part(c.has_cluster, cluster_line(*c)));
        so_far = so_far + part(c.has_cluster, cluster_line(*c));
    }
    if c.has_cluster && c.cluster_unindexed_rows > 0 {
        push_part(&mut parts, cluster_gap_text(c));
    }
    proof {
        assert(views(parts@) =~= so_far + part(
            c.has_cluster && c.cluster_unindexed_rows > 0,
            cluster_gap_line(*c),
        ));
        so_far = so_far + part(c.has_cluster && c.cluster_unindexed_rows > 0, cluster_gap_line(*c));
    }
    if c.has_classify {
        push_part(&mut parts, classify_text(c));
    }
    proof {
        assert(views(parts@) =~= so_far + part(c.has_classify, classify_line(*c)));
        so_far = so_far + part(c.has_classify, classify_line(*c));
    }
    if c.has_rank {
        push_part(&mut parts, rank_text(c));
    }
    proof {
        assert(views(parts@) =~= so_far + part(c.has_rank, rank_line(*c)));
        so_far = so_far + part(c.has_rank, rank_line(*c));
    }
    if c.has_rank && c.rank_unindexed_rows > 0 {
        push_part(&mut parts, rank_gap_text(c));
    }
    proof {
        assert(views(parts@) =~= so_far + part(
            c.has_rank && c.rank_unindexed_rows > 0,
            rank_gap_line(*c),
        ));
        so_far = so_far + part(c.has_rank && c.rank_unindexed_rows > 0, rank_gap_line(*c));
    }
    assert(so_far =~= parts_of(*c));
    join(&parts, "; ")
}

impl ProgressEvent {
    /// The line that an event is shown by.
    pub open spec fn shown(&self) -> Seq<char> {
        match *self {
            ProgressEvent::Plan(line) => line@,
            ProgressEvent::Funnel(counts) => rendered(counts),
            ProgressEvent::Done(counts) => "funnel done \u{2014} "@ + rendered(counts),
        }
    }

    /// The line that an event is shown by.
    pub fn line(&self) -> (r: String)
        ensures
            r@ == self.shown(),
    {
        match self {
            ProgressEvent::Plan(line) => line.clone(),
            ProgressEvent::Funnel(counts) => render(counts),
            ProgressEvent::Done(counts) => "funnel done \u{2014} ".to_owned().concat(
                render(counts).as_str(),
            ),
        }
    }
}

/// Counts are shown by an empty line exactly where the plan has no semantic
/// operator.
pub proof fn only_semantic_plans_have_something_to_say(c: FunnelCounts)
    ensures
        parts_of(c).len() == 0 <==> !c.semantic(),
{
}

/// Counters add up: of one counter its value counts where it has the name, and of
/// several lists each counts.
pub proof fn counters_add_up(a: Seq<Metric>, b: Seq<Metric>, counter: Seq<char>)
    ensures
        metric_total(Seq::empty(), counter) == 0,
        metric_total(a + b, counter) == metric_total(a, counter) + metric_total(b, counter),
        b.len() == 1 ==> metric_total(b, counter) == if b[0].name@ == counter {
            b[0].value as nat
        } else {
            0
        },
    decreases b.len(),
{
    if b.len() == 0 {
        assert(a + b =~= a);
    } else {
        assert((a + b).drop_last() =~= a + b.drop_last());
        counters_add_up(a, b.drop_last(), counter);
        if b.len() == 1 {
            assert(b.drop_last() =~= Seq::<Metric>::empty());
        }
    }
}

/// Plans add up: what is counted of an operator is what it counted itself and what
/// is counted beneath it, and of several plans each counts; the operators of other
/// names do not.
pub proof fn plans_add_up(
    node: ExecNode,
    a: Seq<ExecNode>,
    b: Seq<ExecNode>,
    op: Seq<char>,
    counter: Seq<char>,
)
    ensures
        forest_total(Seq::empty(), op, counter) == 0,
        forest_total(seq![node], op, counter) == tree_total(node, op, counter),
        forest_total(a + b, op, counter) == forest_total(a, op, counter) + forest_total(
            b,
            op,
            counter,
        ),
        node.name@ == op ==> tree_total(node, op, counter) == metric_total(node.metrics@, counter)
            + forest_total(node.children@, op, counter),
        node.name@ != op ==> tree_total(node, op, counter) == forest_total(
            node.children@,
            op,
            counter,
        ),
        !tree_has(node, op) ==> tree_total(node, op, counter) == 0,
        !forest_has(b, op) ==> forest_total(b, op, counter) == 0,
        !forest_has(Seq::empty(), op),
        forest_has(seq![node], op) == tree_has(node, op),
        forest_has(a + b, op) <==> forest_has(a, op) || forest_has(b, op),
        summaries_of(a + b) == summaries_of(a) + summaries_of(b),
        summaries_of(seq![node]) == summary_of(node),
    decreases node, b,
{
    assert(seq![node].drop_last() =~= Seq::<ExecNode>::empty());
    assert(forest_total(Seq::empty(), op, counter) == 0);
    assert(!forest_has(Seq::empty(), op));
    assert(summaries_of(Seq::empty()) =~= Seq::<Seq<char>>::empty());
    assert(summaries_of(seq![node]) =~= summary_of(node));
    lemma_absent(node, op, counter);
    lemma_none_absent(b, op, counter);
    lemma_forests(a, b, op, counter);
}

proof fn lemma_forests(a: Seq<ExecNode>, b: Seq<ExecNode>, op: Seq<char>, counter: Seq<char>)
    ensures
        forest_total(a + b, op, counter) == forest_total(a, op, counter) + forest_total(
            b,
            op,
            counter,
        ),
        forest_has(a + b, op) <==> forest_has(a, op) || forest_has(b, op),
        summaries_of(a + b) == summaries_of(a) + summaries_of(b),
    decreases b.len(),
{
    if b.len() == 0 {
        assert(a + b =~= a);
        assert(summaries_of(a) + summaries_of(b) =~= summaries_of(a));
    } else {
        assert((a + b).drop_last() =~= a + b.drop_last());
        lemma_forests(a, b.drop_last(), op, counter);
        assert(summaries_of(a) + summaries_of(b) =~= summaries_of(a) + summaries_of(b.drop_last())
            + summary_of(b.last()));
    }
}

proof fn lemma_absent(node: ExecNode, op: Seq<char>, counter: Seq<char>)
    ensures
        !tree_has(node, op) ==> tree_total(node, op, counter) == 0,
    decreases node, 0nat,
{
    lemma_none_absent(node.children@, op, counter);
}

proof fn lemma_none_absent(nodes: Seq<ExecNode>, op: Seq<char>, counter: Seq<char>)
    ensures
        !forest_has(nodes, op) ==> forest_total(nodes, op, counter) == 0,
    decreases nodes, 1nat,
{
    if nodes.len() > 0 {
        lemma_none_absent(nodes.drop_last(), op, counter);
        lemma_absent(nodes.last(), op, counter);
    }
}

/// Each counter of an operator is counted in its own place: a plan of one operator
/// with one counter counts its value there.
pub proof fn a_counter_counts_in_its_own_place(node: ExecNode, m: Metric)
    requires
        node.children@.len() == 0,
        node.metrics@ == seq![m],
    ensures
        ({
            let (c, n, v) = (counts_of(node), m.name@, m.value);
            &&& node.name@ == "IndexScanExec"@ ==> c.has_index_scan && (n == "index_hits"@
                ==> c.index_hits == v) && (n == "rows_pruned"@ ==> c.rows_pruned == v) && (n
                == "calibration_sampled_rows"@ ==> c.calibration_sampled_rows == v) && (n
                == "calibration_model_calls"@ ==> c.calibration_model_calls == v)
            &&& node.name@ == "VerifyExec"@ ==> c.has_verify && (n == "model_calls"@
                ==> c.model_calls == v) && (n == "cache_hits"@ ==> c.cache_hits == v) && (n
                == "rows_dropped"@ ==> c.rows_dropped == v)
            &&& node.name@ == "SemExtractExec"@ ==> c.has_extract && (n == "model_calls"@
                ==> c.extract_model_calls == v) && (n == "cache_hits"@ ==> c.extract_cache_hits
                == v) && (n == "rows_failed"@ ==> c.extract_rows_failed == v) && (n
                == "fields_failed"@ ==> c.extract_fields_failed == v)
            &&& node.name@ == "SemClusterExec"@ ==> c.has_cluster && (n == "groups"@
                ==> c.cluster_groups == v) && (n == "model_calls"@ ==> c.cluster_model_calls == v)
                && (n == "cache_hits"@ ==> c.cluster_cache_hits == v) && (n == "unindexed_rows"@
                ==> c.cluster_unindexed_rows == v) && (n == "labels_failed"@
                ==> c.cluster_labels_failed == v)
            &&& node.name@ == "SemClassifyExec"@ ==> c.has_classify && (n == "model_calls"@
                ==> c.classify_model_calls == v) && (n == "cache_hits"@ ==> c.classify_cache_hits
                == v) && (n == "rows_gated"@ ==> c.classify_rows_gated == v) && (n
                == "rows_failed"@ ==> c.classify_rows_failed == v) && (n == "branches_failed"@
                ==> c.classify_branches_failed == v)
            &&& node.name@ == "SemRankExec"@ ==> c.has_rank && (n == "candidate_rows"@
                ==> c.rank_candidate_rows == v) && (n == "rows_pruned"@ ==> c.rank_rows_pruned
                == v) && (n == "unindexed_rows"@ ==> c.rank_unindexed_rows == v) && (n
                == "model_calls"@ ==> c.rank_model_calls == v) && (n == "cache_hits"@
                ==> c.rank_cache_hits == v) && (n == "rows_failed"@ ==> c.rank_rows_failed == v)
        }),
{
    let op = node.name@;
    let counter = m.name@;
    counters_add_up(Seq::empty(), seq![m], counter);
    assert(seq![m][0] == m);
    assert(forest_total(node.children@, op, counter) == 0);
    assert(tree_total(node, op, counter) == m.value);
    assert(tree_has(node, op));
}

/// What an operator did is shown where the plan has it: its part stands in the line.
pub proof fn every_part_is_shown(c: FunnelCounts)
    ensures
        c.has_index_scan ==> occurs_in(index_scan_line(c), rendered(c)),
        c.has_index_scan && c.calibration_sampled_rows > 0 ==> occurs_in(
            calibration_line(c),
            rendered(c),
        ),
        c.has_verify ==> occurs_in(verify_line(c), rendered(c)),
        c.has_extract ==> occurs_in(extract_line(c), rendered(c)),
        c.has_cluster ==> occurs_in(cluster_line(c), rendered(c)),
        c.has_cluster && c.cluster_unindexed_rows > 0 ==> occurs_in(
            cluster_gap_line(c),
            rendered(c),
        ),
        c.has_classify ==> occurs_in(classify_line(c), rendered(c)),
        c.has_rank ==> occurs_in(rank_line(c), rendered(c)),
        c.has_rank && c.rank_unindexed_rows > 0 ==> occurs_in(rank_gap_line(c), rendered(c)),
{
    if c.has_index_scan {
        lemma_part_is_shown(c, index_scan_line(c));
    }
    if c.has_index_scan && c.calibration_sampled_rows > 0 {
        lemma_part_is_shown(c, calibration_line(c));
    }
    if c.has_verify {
        lemma_part_is_shown(c, verify_line(c));
    }
    if c.has_extract {
        lemma_part_is_shown(c, extract_line(c));
    }
    if c.has_cluster {
        lemma_part_is_shown(c, cluster_line(c));
    }
    if c.has_cluster && c.cluster_unindexed_rows > 0 {
        lemma_part_is_shown(c, cluster_gap_line(c));
    }
    if c.has_classify {
        lemma_part_is_shown(c, classify_line(c));
    }
    if c.has_rank {
        lemma_part_is_shown(c, rank_line(c));
    }
    if c.has_rank && c.rank_unindexed_rows > 0 {
        lemma_part_is_shown(c, rank_gap_line(c));
    }
}

proof fn lemma_part_is_shown(c: FunnelCounts, line: Seq<char>)
    requires
        (c.has_index_scan && line == index_scan_line(c)) || (c.has_index_scan
            && c.calibration_sampled_rows > 0 && line == calibration_line(c)) || (c.has_verify
            && line == verify_line(c)) || (c.has_extract && line == extract_line(c)) || (
        c.has_cluster && line == cluster_line(c)) || (c.has_cluster && c.cluster_unindexed_rows > 0
            && line == cluster_gap_line(c)) || (c.has_classify && line == classify_line(c)) || (
        c.has_rank && line == rank_line(c)) || (c.has_rank && c.rank_unindexed_rows > 0 && line
            == rank_gap_line(c)),
    ensures
        occurs_in(line, joined(parts_of(c), "; "@)),
{
    let one = seq![line];
    assert(one[0] == line);
    lemma_among(
        part(c.has_index_scan, index_scan_line(c)),
        part(c.has_index_scan && c.calibration_sampled_rows > 0, calibration_line(c)),
        part(c.has_verify, verify_line(c)),
        part(c.has_extract, extract_line(c)),
        part(c.has_cluster, cluster_line(c)),
        part(c.has_cluster && c.cluster_unindexed_rows > 0, cluster_gap_line(c)),
        part(c.has_classify, classify_line(c)),
        part(c.has_rank, rank_line(c)),
        part(c.has_rank && c.rank_unindexed_rows > 0, rank_gap_line(c)),
        one,
    );
}

proof fn lemma_among(
    p1: Seq<Seq<char>>,
    p2: Seq<Seq<char>>,
    p3: Seq<Seq<char>>,
    p4: Seq<Seq<char>>,
    p5: Seq<Seq<char>>,
    p6: Seq<Seq<char>>,
    p7: Seq<Seq<char>>,
    p8: Seq<Seq<char>>,
    p9: Seq<Seq<char>>,
    one: Seq<Seq<char>>,
)
    requires
        one == p1 || one == p2 || one == p3 || one == p4 || one == p5 || one == p6 || one == p7
            || one == p8 || one == p9,
    ensures
        one.len() > 0 ==> occurs_in(
            one[0],
            joined(p1 + p2 + p3 + p4 + p5 + p6 + p7 + p8 + p9, "; "@),
        ),
{
    if one.len() > 0 {
        let x = one[0];
        assert(one.contains(x));
        let all = p1 + p2 + p3 + p4 + p5 + p6 + p7 + p8 + p9;
        lemma_in_either(p1, p2, x);
        lemma_in_either(p1 + p2, p3, x);
        lemma_in_either(p1 + p2 + p3, p4, x);
        lemma_in_either(p1 + p2 + p3 + p4, p5, x);
        lemma_in_either(p1 + p2 + p3 + p4 + p5, p6, x);
        lemma_in_either(p1 + p2 + p3 + p4 + p5 + p6, p7, x);
        lemma_in_either(p1 + p2 + p3 + p4 + p5 + p6 + p7, p8, x);
        lemma_in_either(p1 + p2 + p3 + p4 + p5 + p6 + p7 + p8, p9, x);
        let k = all.index_of(x);
        joining_keeps_every_part(all, "; "@, k);
    }
}

proof fn lemma_in_either(a: Seq<Seq<char>>, b: Seq<Seq<char>>, x: Seq<char>)
    ensures
        a.contains(x) || b.contains(x) ==> (a + b).contains(x),
{
    if a.contains(x) {
        let k = a.index_of(x);
        assert((a + b)[k] == x);
    } else if b.contains(x) {
        let k = b.index_of(x);
        assert((a + b)[a.len() + k] == x);
    }
}

/// Every part shows its counts, each in front of what it counts.
pub proof fn every_count_is_shown(c: FunnelCounts)
    ensures
        ({
            let line = index_scan_line(c);
            &&& occurs_in(decimal(c.index_hits as nat) + " hits, "@, line)
            &&& occurs_in(decimal(c.rows_pruned as nat) + " pruned"@, line)
        }),
        ({
            let line = calibration_line(c);
            &&& occurs_in(decimal(c.calibration_sampled_rows as nat) + " rows labeled, "@, line)
            &&& occurs_in(decimal(c.calibration_model_calls as nat) + " model calls"@, line)
        }),
        ({
            let line = verify_line(c);
            &&& occurs_in(decimal(c.model_calls as nat) + " model calls, "@, line)
            &&& occurs_in(decimal(c.cache_hits as nat) + " cache hits, "@, line)
            &&& occurs_in(decimal(c.rows_dropped as nat) + " dropped"@, line)
        }),
        ({
            let line = extract_line(c);
            &&& occurs_in(decimal(c.extract_model_calls as nat) + " model calls, "@, line)
            &&& occurs_in(decimal(c.extract_cache_hits as nat) + " cache hits, "@, line)
            &&& occurs_in(decimal(c.extract_rows_failed as nat) + " rows failed, "@, line)
            &&& occurs_in(decimal(c.extract_fields_failed as nat) + " fields failed"@, line)
        }),
        ({
            let line = cluster_line(c);
            &&& occurs_in(decimal(c.cluster_groups as nat) + " groups, "@, line)
            &&& occurs_in(decimal(c.cluster_model_calls as nat) + " model calls, "@, line)
            &&& occurs_in(decimal(c.cluster_cache_hits as nat) + " cache hits, "@, line)
            &&& occurs_in(decimal(c.cluster_labels_failed as nat) + " labels failed"@, line)
        }),
        ({
            let line = classify_line(c);
            &&& occurs_in(decimal(c.classify_model_calls as nat) + " model calls, "@, line)
            &&& occurs_in(decimal(c.classify_cache_hits as nat) + " cache hits, "@, line)
            &&& occurs_in(decimal(c.classify_rows_gated as nat) + " rows gated, "@, line)
            &&& occurs_in(decimal(c.classify_rows_failed as nat) + " rows failed, "@, line)
            &&& occurs_in(decimal(c.classify_branches_failed as nat) + " branches failed"@, line)
        }),
        ({
            let line = rank_line(c);
            &&& occurs_in(decimal(c.rank_candidate_rows as nat) + " candidates, "@, line)
            &&& occurs_in(decimal(c.rank_rows_pruned as nat) + " pruned, "@, line)
            &&& occurs_in(decimal(c.rank_model_calls as nat) + " model calls, "@, line)
            &&& occurs_in(decimal(c.rank_cache_hits as nat) + " cache hits, "@, line)
            &&& occurs_in(decimal(c.rank_rows_failed as nat) + " rows failed"@, line)
        }),
        occurs_in(decimal(c.cluster_unindexed_rows as nat), cluster_gap_line(c)),
        occurs_in(decimal(c.rank_unindexed_rows as nat), rank_gap_line(c)),
{
    lemma_counts(
        "index scan: "@,
        seq![decimal(c.index_hits as nat), decimal(c.rows_pruned as nat)],
        seq![" hits, "@, " pruned"@],
    );
    lemma_counts(
        "calibration: "@,
        seq![
            decimal(c.calibration_sampled_rows as nat),
            decimal(c.calibration_model_calls as nat),
        ],
        seq![" rows labeled, "@, " model calls"@],
    );
    lemma_counts(
        "verify: "@,
        seq![
            decimal(c.model_calls as nat),
            decimal(c.cache_hits as nat),
            decimal(c.rows_dropped as nat),
        ],
        seq![" model calls, "@, " cache hits, "@, " dropped"@],
    );
    lemma_counts(
        "extract: "@,
        seq![
            decimal(c.extract_model_calls as nat),
            decimal(c.extract_cache_hits as nat),
            decimal(c.extract_rows_failed as nat),
            decimal(c.extract_fields_failed as nat),
        ],
        seq![" model calls, "@, " cache hits, "@, " rows failed, "@, " fields failed"@],
    );
    lemma_counts(
        "cluster: "@,
        seq![
            decimal(c.cluster_groups as nat),
            decimal(c.cluster_model_calls as nat),
            decimal(c.cluster_cache_hits as nat),
            decimal(c.cluster_labels_failed as nat),
        ],
        seq![" groups, "@, " model calls, "@, " cache hits, "@, " labels failed"@],
    );
    lemma_counts(
        "classify: "@,
        seq![
            decimal(c.classify_model_calls as nat),
            decimal(c.classify_cache_hits as nat),
            decimal(c.classify_rows_gated as nat),
            decimal(c.classify_rows_failed as nat),
            decimal(c.classify_branches_failed as nat),
        ],
        seq![
            " model calls, "@,
            " cache hits, "@,
            " rows gated, "@,
            " rows failed, "@,
            " branches failed"@,
        ],
    );
    lemma_counts(
        "rank: "@,
        seq![
            decimal(c.rank_candidate_rows as nat),
            decimal(c.rank_rows_pruned as nat),
            decimal(c.rank_model_calls as nat),
            decimal(c.rank_cache_hits as nat),
            decimal(c.rank_rows_failed as nat),
        ],
        seq![" candidates, "@, " pruned, "@, " model calls, "@, " cache hits, "@, " rows failed"@],
    );
    a_framed_text_stands_in_the_whole(
        "cluster: "@,
        decimal(c.cluster_unindexed_rows as nat),
        " rows are not in the semantic index and have no group \u{2014} REFRESH SEMANTIC INDEX to include them"@,
    );
    a_framed_text_stands_in_the_whole(
        "rank: "@,
        decimal(c.rank_unindexed_rows as nat),
        " rows are not in the semantic index and were skipped \u{2014} REFRESH SEMANTIC INDEX to include them"@,
    );
}

proof fn lemma_counts(head: Seq<char>, d: Seq<Seq<char>>, l: Seq<Seq<char>>)
    requires
        2 <= d.len() == l.len() <= 5,
    ensures
        ({
            let two = head + d[0] + l[0] + d[1] + l[1];
            let three = two + d[2] + l[2];
            let four = three + d[3] + l[3];
            let five = four + d[4] + l[4];
            let line = if d.len() == 2 {
                two
            } else if d.len() == 3 {
                three
            } else if d.len() == 4 {
                four
            } else {
                five
            };
            &&& occurs_in(d[0] + l[0], line)
            &&& occurs_in(d[1] + l[1], line)
            &&& d.len() > 2 ==> occurs_in(d[2] + l[2], line)
            &&& d.len() > 3 ==> occurs_in(d[3] + l[3], line)
            &&& d.len() > 4 ==> occurs_in(d[4] + l[4], line)
        }),
{
    let one = head + d[0] + l[0];
    let two = one + d[1] + l[1];
    let three = two + d[2] + l[2];
    let four = three + d[3] + l[3];
    lemma_count(head, d[0], l[0], d[0] + l[0]);
    lemma_count(one, d[1], l[1], d[0] + l[0]);
    lemma_count(one, d[1], l[1], d[1] + l[1]);
    if d.len() > 2 {
        lemma_count(two, d[2], l[2], d[0] + l[0]);
        lemma_count(two, d[2], l[2], d[1] + l[1]);
        lemma_count(two, d[2], l[2], d[2] + l[2]);
    }
    if d.len() > 3 {
        lemma_count(three, d[3], l[3], d[0] + l[0]);
        lemma_count(three, d[3], l[3], d[1] + l[1]);
        lemma_count(three, d[3], l[3], d[2] + l[2]);
        lemma_count(three, d[3], l[3], d[3] + l[3]);
    }
    if d.len() > 4 {
        lemma_count(four, d[4], l[4], d[0] + l[0]);
        lemma_count(four, d[4], l[4], d[1] + l[1]);
        lemma_count(four, d[4], l[4], d[2] + l[2]);
        lemma_count(four, d[4], l[4], d[3] + l[3]);
        lemma_count(four, d[4], l[4], d[4] + l[4]);
    }
}

proof fn lemma_count(head: Seq<char>, d: Seq<char>, l: Seq<char>, x: Seq<char>)
    ensures
        occurs_in(d + l, head + d + l),
        occurs_in(x, head) ==> occurs_in(x, head + d + l),
{
    let whole = head + d + l;
    let at = head.len() as int;
    assert(whole.subrange(at, at + (d + l).len()) =~= d + l);
    assert(whole.subrange(0, 0 + head.len() as int) =~= head);
    if occurs_in(x, head) {
        a_part_of_a_part_is_a_part(x, head, whole);
    }
}

}
