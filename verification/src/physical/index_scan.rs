//! The index pre-filter stage, the funnel's cheap stage.

use std::collections::{HashMap, HashSet};

use vstd::prelude::*;

use crate::cache::{known, lookup, CacheKey, CachedValue, Contents, KeyView, SemanticCache};
use crate::index::{doc_hash, hash_of, opt_views, ChunkHit, SearchParams};
use crate::model::{answer_text, answer_texts, Answer, CompletionRequest, ModelId, RequestView};
use crate::number::{Single, NEG_INFINITY_SINGLE};
use crate::optimizer::calibrate::{
    calibrate_threshold, high_first, survivors, threshold_for, Calibration, SampledScores,
};
use crate::physical::{
    answers_stay_answered, keep_first, lemma_agreed_len, lemma_agreed_prefix, lemma_none_unusable,
    remembered, unusable, usable_values_are_cached,
};
use crate::physical::verify::{
    agreed_verdicts, answer_verdict, means_cache_key, means_key, means_prompt, parse_verdict,
    synthesize_means_prompt, verdict_text, verdict_values, verdicts, Verifier, MEANS_PROMPT_VERSION,
};
use crate::text::views;

verus! {

/// What one index search learned, shared from the scan to the verify stage.
#[derive(Debug)]
pub struct PrefilterResult {
    /// Surviving documents, each with its best chunks (verify's evidence), best
    /// first, at most `chunks_per_doc` each.
    pub chunks: HashMap<u64, Vec<String>>,
    /// Every document the index knows: how the scan tells "scored below the
    /// floor" (prune) from "never indexed" (pass through).
    pub indexed: HashSet<u64>,
}

/// The chunks of each document, as views.
pub open spec fn chunk_views(m: Map<u64, Vec<String>>) -> Map<u64, Seq<Seq<char>>> {
    m.map_values(|v: Vec<String>| views(v@))
}

/// Planning-time channel between the index scan and the verify stage: the scan
/// fills it before it hands on a batch, verify reads it per row. Keyed by
/// [`doc_hash`](crate::index::doc_hash), so it survives whatever repartitioning
/// lies between the two operators.
#[derive(Debug)]
pub struct ChunkEvidence {
    result: Option<PrefilterResult>,
}

impl ChunkEvidence {
    /// The chunks of each surviving document; none before the scan has run.
    pub closed spec fn chunks(&self) -> Map<u64, Seq<Seq<char>>> {
        match self.result {
            Some(r) => chunk_views(r.chunks@),
            None => Map::empty(),
        }
    }

    /// The channel before the scan has run.
    pub fn new() -> (r: ChunkEvidence)
        ensures
            r.chunks() == Map::<u64, Seq<Seq<char>>>::empty(),
    {
        ChunkEvidence { result: None }
    }

    /// The channel once the scan has run.
    pub fn filled(result: PrefilterResult) -> (r: ChunkEvidence)
        ensures
            r.chunks() == chunk_views(result.chunks@),
    {
        ChunkEvidence { result: Some(result) }
    }

    /// The chunks for a document, if the index scan ran and the document
    /// survived it.
    pub fn chunks_for(&self, doc_hash: u64) -> (r: Option<&Vec<String>>)
        ensures
            match r {
                Some(v) => self.chunks().contains_key(doc_hash) && views(v@)
                    == self.chunks()[doc_hash],
                None => !self.chunks().contains_key(doc_hash),
            },
    {
        match &self.result {
            Some(result) => result.chunks.get(&doc_hash),
            None => None,
        }
    }
}


/// The texts of a document's hits that score at least `floor`, in order; no
/// floor takes them all.
pub open spec fn doc_texts(hits: Seq<ChunkHit>, floor: Option<Single>, doc: u64) -> Seq<Seq<char>>
    decreases hits.len(),
{
    if hits.len() == 0 {
        Seq::empty()
    } else {
        let before = doc_texts(hits.drop_last(), floor, doc);
        let hit = hits.last();
        if hit.doc_hash == doc && !(floor is Some && hit.score.below(floor->0)) {
            before.push(hit.text@)
        } else {
            before
        }
    }
}

/// The first `n` of some texts, or all of them.
pub open spec fn at_most(texts: Seq<Seq<char>>, n: nat) -> Seq<Seq<char>> {
    if texts.len() <= n {
        texts
    } else {
        texts.take(n as int)
    }
}

/// One more chunk joins a document's, unless it has enough.
pub(crate) fn add_chunk(chunks: &mut HashMap<u64, Vec<String>>, doc: u64, text: &String, cap: usize)
    ensures
        chunk_views(final(chunks)@) == chunk_views(old(chunks)@).insert(
            doc,
            ({
                let had = if old(chunks)@.contains_key(doc) {
                    views(old(chunks)@[doc]@)
                } else {
                    Seq::empty()
                };
                if had.len() < cap {
                    had.push(text@)
                } else {
                    had
                }
            }),
        ),
{
    let ghost before = chunks@;
    let mut list: Vec<String> = match chunks.remove(&doc) {
        Some(list) => list,
        None => Vec::new(),
    };
    let ghost had = views(list@);
    assert(!before.contains_key(doc) ==> had == Seq::<Seq<char>>::empty());
    if list.len() < cap {
        list.push(text.clone());
        assert(views(list@) == had.push(text@));
    }
    chunks.insert(doc, list);
    assert(chunk_views(chunks@) =~= chunk_views(before).insert(doc, views(list@)));
}

/// Bucket search hits into per-document evidence: chunks scoring at least
/// `floor`, best first, at most `chunks_per_doc` each. Hits arrive best first.
pub fn bucket_chunks(hits: &Vec<ChunkHit>, floor: Single, chunks_per_doc: usize) -> (r: HashMap<
    u64,
    Vec<String>,
>)
    ensures
        forall|d: u64| #[trigger]
            r@.contains_key(d) <==> doc_texts(hits@, Some(floor), d).len() > 0,
        forall|d: u64| #[trigger]
            r@.contains_key(d) ==> views(r@[d]@) == at_most(
                doc_texts(hits@, Some(floor), d),
                chunks_per_doc as nat,
            ),
{
    let mut chunks: HashMap<u64, Vec<String>> = HashMap::new();
    let mut i: usize = 0;
    while i < hits.len()
        invariant
            i <= hits.len(),
            forall|d: u64| #[trigger]
                chunks@.contains_key(d) <==> doc_texts(
                    hits@.take(i as int),
                    Some(floor),
                    d,
                ).len() > 0,
            forall|d: u64| #[trigger]
                chunks@.contains_key(d) ==> views(chunks@[d]@) == at_most(
                    doc_texts(hits@.take(i as int), Some(floor), d),
                    chunks_per_doc as nat,
                ),
        decreases hits.len() - i,
    {
        assert(hits@.take(i + 1).drop_last() == hits@.take(i as int));
        assert(hits@.take(i + 1) == hits@.take(i as int).push(hits@[i as int]));
        let hit = &hits[i];
        if !hit.score.lt(floor) {
            let ghost before = chunks@;
            add_chunk(&mut chunks, hit.doc_hash, &hit.text, chunks_per_doc);
            proof {
                lemma_add_chunk(
                    before,
                    chunks@,
                    hits@.take(i as int),
                    hits@[i as int],
                    Some(floor),
                    chunks_per_doc as nat,
                );
            }
        }
        i += 1;
    }
    assert(hits@.take(i as int) == hits@);
    chunks
}

/// What one more chunk does to the evidence of every document.
pub proof fn lemma_add_chunk(
    before: Map<u64, Vec<String>>,
    after: Map<u64, Vec<String>>,
    hits: Seq<ChunkHit>,
    hit: ChunkHit,
    floor: Option<Single>,
    cap: nat,
)
    requires
        !(floor is Some && hit.score.below(floor->0)),
        before.contains_key(hit.doc_hash) <==> doc_texts(hits, floor, hit.doc_hash).len() > 0,
        before.contains_key(hit.doc_hash) ==> views(before[hit.doc_hash]@) == at_most(
            doc_texts(hits, floor, hit.doc_hash),
            cap,
        ),
        chunk_views(after) == chunk_views(before).insert(
            hit.doc_hash,
            ({
                let had = if before.contains_key(hit.doc_hash) {
                    views(before[hit.doc_hash]@)
                } else {
                    Seq::empty()
                };
                if had.len() < cap {
                    had.push(hit.text@)
                } else {
                    had
                }
            }),
        ),
    ensures
        forall|d: u64| #[trigger]
            after.contains_key(d) <==> before.contains_key(d) || d == hit.doc_hash,
        forall|d: u64|
            d != hit.doc_hash && #[trigger] after.contains_key(d) ==> views(after[d]@) == views(
                before[d]@,
            ),
        views(after[hit.doc_hash]@) == at_most(
            doc_texts(hits.push(hit), floor, hit.doc_hash),
            cap,
        ),
        doc_texts(hits.push(hit), floor, hit.doc_hash).len() > 0,
        forall|d: u64|
            d != hit.doc_hash ==> #[trigger] doc_texts(hits.push(hit), floor, d) == doc_texts(
                hits,
                floor,
                d,
            ),
{
    let doc = hit.doc_hash;
    assert(hits.push(hit).drop_last() == hits);
    assert forall|d: u64| #[trigger]
        after.contains_key(d) <==> before.contains_key(d) || d == doc by {
        assert(chunk_views(after).contains_key(d) <==> after.contains_key(d));
        assert(chunk_views(before).contains_key(d) <==> before.contains_key(d));
    }
    assert forall|d: u64| d != doc && #[trigger] after.contains_key(d) implies views(after[d]@)
        == views(before[d]@) by {
        assert(chunk_views(after)[d] == chunk_views(before)[d]);
    }
    assert(after.contains_key(doc));
    assert(chunk_views(after)[doc] == views(after[doc]@));
    let all = doc_texts(hits, floor, doc);
    let now = doc_texts(hits.push(hit), floor, doc);
    assert(now == all.push(hit.text@));
    let had = if before.contains_key(doc) {
        views(before[doc]@)
    } else {
        Seq::empty()
    };
    assert(had == at_most(all, cap));
    if all.len() < cap {
        assert(at_most(now, cap) == had.push(hit.text@));
    } else {
        assert(at_most(now, cap) == at_most(all, cap));
    }
}

/// What becomes of a row at the index stage.
#[derive(Clone, Copy, PartialEq, Eq, Debug, Structural)]
pub enum Fate {
    /// The index found its document.
    Hit,
    /// The row has no text, or the index knows its document and did not find it.
    Pruned,
    /// The index has never seen its document.
    Unindexed,
}

pub open spec fn fate(text: Option<Seq<char>>, found: Set<u64>, indexed: Set<u64>) -> Fate {
    match text {
        None => Fate::Pruned,
        Some(t) => if found.contains(hash_of(t)) {
            Fate::Hit
        } else if indexed.contains(hash_of(t)) {
            Fate::Pruned
        } else {
            Fate::Unindexed
        },
    }
}

/// How many of some rows have a fate.
pub open spec fn tally(
    texts: Seq<Option<Seq<char>>>,
    found: Set<u64>,
    indexed: Set<u64>,
    f: Fate,
) -> nat
    decreases texts.len(),
{
    if texts.len() == 0 {
        0
    } else {
        tally(texts.drop_last(), found, indexed, f) + if fate(texts.last(), found, indexed) == f {
            1nat
        } else {
            0nat
        }
    }
}

/// The fate of a row.
pub fn row_fate(text: &Option<String>, chunks: &HashMap<u64, Vec<String>>, indexed: &HashSet<u64>) -> (r:
    Fate)
    ensures
        r == fate(crate::text::opt_view(*text), chunks@.dom(), indexed@),
{
    match text {
        None => Fate::Pruned,
        Some(text) => {
            let hash = doc_hash(text.as_str());
            if chunks.contains_key(&hash) {
                Fate::Hit
            } else if indexed.contains(&hash) {
                Fate::Pruned
            } else {
                Fate::Unindexed
            }
        },
    }
}

/// Which rows of a batch pass the pre-filter.
#[derive(Debug)]
pub struct ScanOutcome {
    pub keep: Vec<bool>,
    pub index_hits: usize,
    pub rows_pruned: usize,
    pub passthrough_rows: usize,
}

/// Filters a batch through the index search. NULL text never matches; a row
/// the index never saw passes through, for staleness must never silently drop a
/// row: it only costs a full-text verify call downstream.
pub fn scan_batch(result: &PrefilterResult, texts: &Vec<Option<String>>) -> (r: ScanOutcome)
    ensures
        ({
            let col = opt_views(texts@);
            let found = result.chunks@.dom();
            let indexed = result.indexed@;
            &&& r.keep.len() == texts.len()
            &&& forall|i: int|
                0 <= i < texts.len() ==> #[trigger] r.keep[i] == (fate(col[i], found, indexed)
                    != Fate::Pruned)
            &&& forall|i: int|
                0 <= i < texts.len() ==> (#[trigger] r.keep[i] <==> texts[i] is Some && (
                result.chunks@.contains_key(hash_of(texts[i]->0@)) || !result.indexed@.contains(
                    hash_of(texts[i]->0@),
                )))
            &&& r.index_hits + r.rows_pruned + r.passthrough_rows == texts.len()
            &&& r.index_hits == tally(col, found, indexed, Fate::Hit)
            &&& r.rows_pruned == tally(col, found, indexed, Fate::Pruned)
            &&& r.passthrough_rows == tally(col, found, indexed, Fate::Unindexed)
        }),
{
    let mut keep: Vec<bool> = Vec::new();
    let mut index_hits: usize = 0;
    let mut rows_pruned: usize = 0;
    let mut passthrough_rows: usize = 0;
    let ghost col = opt_views(texts@);
    let ghost found = result.chunks@.dom();
    let ghost indexed = result.indexed@;
    let mut row: usize = 0;
    while row < texts.len()
        invariant
            row <= texts.len(),
            col == opt_views(texts@),
            found == result.chunks@.dom(),
            indexed == result.indexed@,
            keep.len() == row,
            forall|i: int|
                0 <= i < row ==> #[trigger] keep[i] == (fate(col[i], found, indexed)
                    != Fate::Pruned),
            index_hits == tally(col.take(row as int), found, indexed, Fate::Hit),
            rows_pruned == tally(col.take(row as int), found, indexed, Fate::Pruned),
            passthrough_rows == tally(col.take(row as int), found, indexed, Fate::Unindexed),
            index_hits + rows_pruned + passthrough_rows == row,
        decreases texts.len() - row,
    {
        assert(col.take(row + 1).drop_last() == col.take(row as int));
        assert(col.take(row + 1).last() == col[row as int]);
        match row_fate(&texts[row], &result.chunks, &result.indexed) {
            Fate::Hit => {
                index_hits = index_hits + 1;
                keep.push(true);
            },
            Fate::Pruned => {
                rows_pruned = rows_pruned + 1;
                keep.push(false);
            },
            Fate::Unindexed => {
                passthrough_rows = passthrough_rows + 1;
                keep.push(true);
            },
        }
        row += 1;
    }
    assert(col.take(row as int) == col);
    ScanOutcome { keep, index_hits, rows_pruned, passthrough_rows }
}


/// Staleness never silently drops a row: a row with a text that the index has
/// never seen passes through to full-text verification, whatever the search
/// found.
pub proof fn unindexed_rows_pass_through(text: Seq<char>, found: Set<u64>, indexed: Set<u64>)
    requires
        !found.contains(hash_of(text)),
        !indexed.contains(hash_of(text)),
    ensures
        fate(Some(text), found, indexed) != Fate::Pruned,
{
}

/// A document of the calibration sample, and whether it is a true match.
#[derive(Debug)]
pub struct Label {
    pub text: String,
    pub positive: bool,
}

/// What a [`Label`] says.
pub struct LabelView {
    pub text: Seq<char>,
    pub positive: bool,
}

impl View for Label {
    type V = LabelView;

    open spec fn view(&self) -> LabelView {
        LabelView { text: self.text@, positive: self.positive }
    }
}

pub open spec fn label_views(labels: Seq<Label>) -> Seq<LabelView> {
    labels.map_values(|l: Label| l@)
}

/// The first step of labeling a sample: what the cache labels, and what to ask.
#[derive(Debug)]
pub struct LabelPlan {
    pub labels: Vec<Label>,
    pub misses: Vec<String>,
    pub requests: Vec<CompletionRequest>,
}

/// Ground-truth labels for a calibration sample: the model reads each
/// document's full text, which is the definition of `MEANS`.
#[derive(Debug)]
pub struct Labeler {
    pub condition: String,
    pub model_id: ModelId,
}

impl Labeler {
    pub open spec fn key(&self, text: Seq<char>) -> KeyView {
        means_key(self.condition@, text, self.model_id@, MEANS_PROMPT_VERSION@)
    }

    pub open spec fn request(&self, text: Seq<char>) -> RequestView {
        RequestView {
            system: means_prompt(self.condition@),
            input: text,
            max_tokens: 8,
            schema: None,
        }
    }

    /// The labels that the cache gives.
    pub open spec fn cached_labels(&self, sample: Seq<Seq<char>>, c: Contents) -> Seq<LabelView>
        decreases sample.len(),
    {
        if sample.len() == 0 {
            Seq::empty()
        } else {
            let before = self.cached_labels(sample.drop_last(), c);
            match known(c, self.key(sample.last())) {
                Some(v) => before.push(
                    LabelView { text: sample.last(), positive: v == "yes"@ },
                ),
                None => before,
            }
        }
    }

    /// The documents that the cache does not label.
    pub open spec fn unlabeled(&self, sample: Seq<Seq<char>>, c: Contents) -> Seq<Seq<char>> {
        sample.filter(|t: Seq<char>| known(c, self.key(t)) is None)
    }

    /// The labels that the answers give: an unusable answer drops its document
    /// out of the sample.
    pub open spec fn answered(texts: Seq<Seq<char>>, said: Seq<Option<bool>>) -> Seq<LabelView>
        decreases said.len(),
    {
        if said.len() == 0 {
            Seq::empty()
        } else {
            let before = Self::answered(texts.drop_last(), said.drop_last());
            match said.last() {
                Some(v) => before.push(LabelView { text: texts.last(), positive: v }),
                None => before,
            }
        }
    }

    /// The cache labels exactly the documents that it has a verdict on, in the
    /// order of the sample, each by that verdict.
    pub proof fn lemma_cached_labels(&self, sample: Seq<Seq<char>>, c: Contents)
        ensures
            self.cached_labels(sample, c) == sample.filter(
                |t: Seq<char>| known(c, self.key(t)) is Some,
            ).map_values(
                |t: Seq<char>| LabelView { text: t, positive: known(c, self.key(t)) == Some("yes"@) },
            ),
            forall|j: int|
                0 <= j < self.cached_labels(sample, c).len() ==> {
                    let label = #[trigger] self.cached_labels(sample, c)[j];
                    &&& sample.contains(label.text)
                    &&& known(c, self.key(label.text)) is Some
                    &&& label.positive <==> known(c, self.key(label.text)) == Some("yes"@)
                },
        decreases sample.len(),
    {
        reveal(Seq::filter);
        let labels = self.cached_labels(sample, c);
        let f = |t: Seq<char>|
            LabelView { text: t, positive: known(c, self.key(t)) == Some("yes"@) };
        let open = |t: Seq<char>| known(c, self.key(t)) is Some;
        if sample.len() > 0 {
            let less = sample.drop_last();
            self.lemma_cached_labels(less, c);
            let before = self.cached_labels(less, c);
            if known(c, self.key(sample.last())) is Some {
                assert(less.filter(open).push(sample.last()).map_values(f) =~= less.filter(
                    open,
                ).map_values(f).push(f(sample.last())));
            }
            assert forall|j: int| 0 <= j < labels.len() implies {
                let label = #[trigger] labels[j];
                &&& sample.contains(label.text)
                &&& known(c, self.key(label.text)) is Some
                &&& label.positive <==> known(c, self.key(label.text)) == Some("yes"@)
            } by {
                if j < before.len() {
                    assert(labels[j] == before[j]);
                    let k = choose|k: int| 0 <= k < less.len() && less[k] == before[j].text;
                    assert(sample[k] == labels[j].text);
                } else {
                    assert(sample[sample.len() - 1] == labels[j].text);
                }
            }
        } else {
            assert(labels =~= sample.filter(open).map_values(f));
        }
    }

    fn cache_key(&self, text: &str) -> (r: CacheKey)
        ensures
            r@ == self.key(text@),
    {
        means_cache_key(self.condition.as_str(), text, &self.model_id, MEANS_PROMPT_VERSION)
    }

    /// Plans the labels of a sample. The requests and the cache keys are those
    /// of the verify stage without an index, so labels land in the verdict cache
    /// and repeat calibrations draw from it.
    pub fn plan_sample<C: SemanticCache>(&self, sample: &Vec<String>, cache: &C) -> (r: LabelPlan)
        ensures
            label_views(r.labels@) == self.cached_labels(views(sample@), cache.contents()),
            forall|j: int|
                0 <= j < r.labels.len() ==> ((#[trigger] r.labels[j]).positive <==> known(
                    cache.contents(),
                    self.key(r.labels[j].text@),
                ) == Some("yes"@)),
            views(r.misses@) == self.unlabeled(views(sample@), cache.contents()),
            r.requests.len() == r.misses.len(),
            forall|j: int|
                0 <= j < r.requests.len() ==> (#[trigger] r.requests[j])@ == self.request(
                    r.misses[j]@,
                ),
    {
        let mut labels: Vec<Label> = Vec::new();
        let mut missed: Vec<String> = Vec::new();
        let mut requests: Vec<CompletionRequest> = Vec::new();
        let ghost all = views(sample@);
        let ghost c = cache.contents();
        let ghost open = |t: Seq<char>| known(c, self.key(t)) is None;
        let mut i: usize = 0;
        proof {
            reveal(Seq::filter);
        }
        assert(label_views(labels@) == self.cached_labels(all.take(0), c));
        assert(views(missed@) == all.take(0).filter(open));
        while i < sample.len()
            invariant
                i <= sample.len(),
                all == views(sample@),
                c == cache.contents(),
                open == (|t: Seq<char>| known(c, self.key(t)) is None),
                label_views(labels@) == self.cached_labels(all.take(i as int), c),
                views(missed@) == all.take(i as int).filter(open),
                requests.len() == missed.len(),
                forall|j: int|
                    0 <= j < requests.len() ==> (#[trigger] requests[j])@ == self.request(
                        missed[j]@,
                    ),
            decreases sample.len() - i,
        {
            proof {
                reveal(Seq::filter);
            }
            assert(all.take(i + 1).drop_last() == all.take(i as int));
            let text = &sample[i];
            let key = self.cache_key(text.as_str());
            match lookup(cache, &key) {
                Some(verdict) => {
                    let ghost before = label_views(labels@);
                    labels.push(
                        Label { text: text.clone(), positive: verdict == "yes".to_owned() },
                    );
                    assert(label_views(labels@) == before.push(labels[labels.len() - 1]@));
                },
                None => {
                    let ghost before = views(missed@);
                    requests.push(
                        CompletionRequest {
                            system: synthesize_means_prompt(self.condition.as_str()),
                            input: text.clone(),
                            max_tokens: 8,
                            schema: None,
                        },
                    );
                    missed.push(text.clone());
                    assert(views(missed@) == before.push(text@));
                },
            }
            i += 1;
        }
        assert(all.take(i as int) == all);
        proof {
            self.lemma_cached_labels(all, c);
            assert forall|j: int| 0 <= j < labels.len() implies ((#[trigger] labels[j]).positive
                <==> known(c, self.key(labels[j].text@)) == Some("yes"@)) by {
                assert(label_views(labels@)[j] == labels[j]@);
            }
        }
        LabelPlan { labels, misses: missed, requests }
    }

    /// Labels the rest of a sample with the model's answers. A document whose
    /// call fails or answers unparseably drops out of the sample: rows fail,
    /// queries don't.
    pub fn apply<C: SemanticCache>(&self, plan: LabelPlan, answers: &Vec<Answer>, cache: &mut C) -> (r:
        Vec<Label>)
        requires
            answers.len() == plan.misses.len(),
        ensures
            ({
                let said = verdicts(answer_texts(answers@));
                let texts = views(plan.misses@);
                let keys = texts.map_values(|t: Seq<char>| self.key(t));
                let c = old(cache).contents();
                &&& label_views(r@) == label_views(plan.labels@) + Self::answered(
                    texts,
                    agreed_verdicts(c, keys, said),
                )
                &&& final(cache).contents() == remembered(c, keys, verdict_values(said))
            }),
    {
        let LabelPlan { labels, misses: missed, requests: _ } = plan;
        let mut labels = labels;
        let ghost first = label_views(labels@);
        let ghost said = verdicts(answer_texts(answers@));
        let ghost values = verdict_values(said);
        let ghost texts = views(missed@);
        let ghost keys = texts.map_values(|t: Seq<char>| self.key(t));
        let ghost c = cache.contents();
        let ghost come_to = agreed_verdicts(c, keys, said);
        let mut j: usize = 0;
        proof {
            lemma_agreed_len(c, keys, values);
        }
        assert(first + Self::answered(texts.take(0), come_to.take(0)) == first);
        while j < missed.len()
            invariant
                j <= missed.len() == answers.len(),
                said == verdicts(answer_texts(answers@)),
                values == verdict_values(said),
                texts == views(missed@),
                keys == texts.map_values(|t: Seq<char>| self.key(t)),
                come_to == agreed_verdicts(c, keys, said),
                come_to.len() == said.len() == missed.len(),
                label_views(labels@) == first + Self::answered(
                    texts.take(j as int),
                    come_to.take(j as int),
                ),
                cache.contents() == remembered(c, keys.take(j as int), values.take(j as int)),
            decreases missed.len() - j,
        {
            assert(said.take(j + 1).drop_last() == said.take(j as int));
            assert(values.take(j + 1).drop_last() == values.take(j as int));
            assert(texts.take(j + 1).drop_last() == texts.take(j as int));
            assert(keys.take(j + 1).drop_last() == keys.take(j as int));
            assert(said[j as int] == answer_verdict(answer_text(answers[j as int])));
            let verdict: Option<bool> = match &answers[j] {
                Ok(completion) => parse_verdict(completion.text.as_str()),
                Err(_) => None,
            };
            assert(come_to.take(j + 1).drop_last() == come_to.take(j as int));
            proof {
                lemma_agreed_prefix(c, keys, values, j as int);
            }
            if let Some(matched) = verdict {
                let key = self.cache_key(missed[j].as_str());
                let kept = keep_first(cache, key, verdict_text(matched));
                let ghost before = label_views(labels@);
                labels.push(Label { text: missed[j].clone(), positive: kept == "yes".to_owned() });
                assert(label_views(labels@) == before.push(labels[labels.len() - 1]@));
            }
            j += 1;
        }
        assert(come_to.take(j as int) == come_to);
        assert(values.take(j as int) == values);
        assert(texts.take(j as int) == texts);
        assert(keys.take(j as int) == keys);
        labels
    }
}

/// The two stages pay for each other's cache: a label is asked for, and kept,
/// exactly as the verify stage asks for and keeps a verdict on the full text.
pub proof fn labels_are_full_text_verdicts(l: &Labeler, v: &Verifier, text: Seq<char>)
    requires
        v.condition_text() == l.condition@,
        v.model() == l.model_id@,
    ensures
        l.request(text) == v.request(text, Map::empty()),
        l.key(text) == v.key(text),
{
}

/// The best score of a document: that of its first hit, for hits arrive best
/// first.
pub open spec fn best_score(hits: Seq<ChunkHit>, doc: u64) -> Option<Single>
    decreases hits.len(),
{
    if hits.len() == 0 {
        None
    } else if hits[0].doc_hash == doc {
        Some(hits[0].score)
    } else {
        best_score(hits.drop_first(), doc)
    }
}

/// The scores of the true matches that the search returned.
pub open spec fn positive_scores(labels: Seq<LabelView>, hits: Seq<ChunkHit>) -> Seq<Single>
    decreases labels.len(),
{
    if labels.len() == 0 {
        Seq::empty()
    } else {
        let before = positive_scores(labels.drop_last(), hits);
        match best_score(hits, hash_of(labels.last().text)) {
            Some(score) => if labels.last().positive {
                before.push(score)
            } else {
                before
            },
            None => before,
        }
    }
}

/// How many true matches are indexed but fell outside the search (`lost`), or
/// have never been indexed.
pub open spec fn unscored(
    labels: Seq<LabelView>,
    hits: Seq<ChunkHit>,
    indexed: Set<u64>,
    lost: bool,
) -> nat
    decreases labels.len(),
{
    if labels.len() == 0 {
        0
    } else {
        unscored(labels.drop_last(), hits, indexed, lost) + if labels.last().positive && best_score(
            hits,
            hash_of(labels.last().text),
        ) is None && indexed.contains(hash_of(labels.last().text)) == lost {
            1nat
        } else {
            0nat
        }
    }
}

/// The best score of each document that the search returned.
pub fn best_scores(hits: &Vec<ChunkHit>) -> (r: HashMap<u64, Single>)
    ensures
        forall|d: u64| #[trigger] r@.contains_key(d) <==> best_score(hits@, d) is Some,
        forall|d: u64| #[trigger] r@.contains_key(d) ==> best_score(hits@, d) == Some(r@[d]),
{
    let mut best: HashMap<u64, Single> = HashMap::new();
    let mut i: usize = hits.len();
    assert(hits@.skip(i as int) =~= Seq::<ChunkHit>::empty());
    while i > 0
        invariant
            i <= hits.len(),
            forall|d: u64| #[trigger]
                best@.contains_key(d) <==> best_score(hits@.skip(i as int), d) is Some,
            forall|d: u64| #[trigger]
                best@.contains_key(d) ==> best_score(hits@.skip(i as int), d) == Some(best@[d]),
        decreases i,
    {
        i -= 1;
        assert(hits@.skip(i as int).drop_first() == hits@.skip(i + 1));
        best.insert(hits[i].doc_hash, hits[i].score);
    }
    assert(hits@.skip(0) == hits@);
    best
}

/// What the labels of a sample say about the index.
pub fn score_sample(labels: &Vec<Label>, hits: &Vec<ChunkHit>, indexed: &HashSet<u64>) -> (r:
    SampledScores)
    ensures
        r.sampled == labels.len(),
        r.positive_scores@ == positive_scores(label_views(labels@), hits@),
        r.positive_lost == unscored(label_views(labels@), hits@, indexed@, true),
        r.positive_unindexed == unscored(label_views(labels@), hits@, indexed@, false),
        r.matches() <= labels.len(),
{
    let best = best_scores(hits);
    let mut scores = SampledScores::new();
    scores.sampled = labels.len();
    let ghost all = label_views(labels@);
    let mut i: usize = 0;
    while i < labels.len()
        invariant
            i <= labels.len(),
            all == label_views(labels@),
            forall|d: u64| #[trigger] best@.contains_key(d) <==> best_score(hits@, d) is Some,
            forall|d: u64| #[trigger]
                best@.contains_key(d) ==> best_score(hits@, d) == Some(best@[d]),
            scores.sampled == labels.len(),
            scores.positive_scores@ == positive_scores(all.take(i as int), hits@),
            scores.positive_lost == unscored(all.take(i as int), hits@, indexed@, true),
            scores.positive_unindexed == unscored(all.take(i as int), hits@, indexed@, false),
            scores.matches() <= i,
        decreases labels.len() - i,
    {
        assert(all.take(i + 1).drop_last() == all.take(i as int));
        let label = &labels[i];
        if label.positive {
            let hash = doc_hash(label.text.as_str());
            assert(best@.contains_key(hash) <==> best_score(hits@, hash) is Some);
            match best.get(&hash) {
                Some(score) => {
                    scores.positive_scores.push(*score);
                },
                None => {
                    if indexed.contains(&hash) {
                        scores.positive_lost = scores.positive_lost + 1;
                    } else {
                        scores.positive_unindexed = scores.positive_unindexed + 1;
                    }
                },
            }
        }
        i += 1;
    }
    assert(all.take(i as int) == all);
    scores
}

/// The pre-filter with its floor calibrated on a sample: `wanted` is the number
/// of the sample's true matches that the recall target asks for.
pub fn calibrated_prefilter(
    hits: &Vec<ChunkHit>,
    indexed: HashSet<u64>,
    scores: &SampledScores,
    wanted: usize,
    params: &SearchParams,
) -> (r: (PrefilterResult, Calibration))
    requires
        scores.matches() <= usize::MAX,
    ensures
        r.0.indexed == indexed,
        ({
            let floor = if scores.matches() == 0 {
                params.score_floor
            } else {
                threshold_for(
                    wanted as int,
                    params.score_floor,
                    scores.positive_scores@,
                    scores.positive_unindexed as int,
                )
            };
            &&& r.1.threshold == floor
            &&& r.1.sampled_rows == scores.sampled
            &&& r.1.total == scores.matches()
            &&& r.1.kept == (if scores.matches() == 0 {
                0
            } else {
                survivors(high_first(scores.positive_scores@), floor) + scores.positive_unindexed
            })
            &&& forall|d: u64| #[trigger]
                r.0.chunks@.contains_key(d) <==> doc_texts(hits@, Some(floor), d).len() > 0
            &&& forall|d: u64| #[trigger]
                r.0.chunks@.contains_key(d) ==> views(r.0.chunks@[d]@) == at_most(
                    doc_texts(hits@, Some(floor), d),
                    params.chunks_per_doc as nat,
                )
        }),
{
    let calibrated = calibrate_threshold(wanted, params.score_floor, scores);
    let chunks = bucket_chunks(hits, calibrated.threshold, params.chunks_per_doc);
    (PrefilterResult { chunks, indexed }, calibrated)
}

/// Search knobs for a calibrated scan: the same, with the floor dropped. One
/// search serves both the sample's score lookup and the final evidence.
pub fn unfloored(params: &SearchParams) -> (r: SearchParams)
    ensures
        r == (SearchParams { score_floor: Single { bits: NEG_INFINITY_SINGLE }, ..*params }),
{
    SearchParams {
        fetch_k: params.fetch_k,
        score_floor: Single { bits: NEG_INFINITY_SINGLE },
        chunks_per_doc: params.chunks_per_doc,
    }
}

/// What is kept of a document is its own: the texts of its hits that reach the
/// floor, in the order of the hits, and of those the first.
pub proof fn evidence_is_the_document_s_own(
    hits: Seq<ChunkHit>,
    floor: Option<Single>,
    doc: u64,
    cap: nat,
)
    ensures
        doc_texts(hits, floor, doc) == hits.filter(
            |h: ChunkHit|
                h.doc_hash == doc && (floor matches Some(least) ==> !h.score.below(least)),
        ).map_values(|h: ChunkHit| h.text@),
        at_most(doc_texts(hits, floor, doc), cap).len() <= cap,
        at_most(doc_texts(hits, floor, doc), cap).len() < cap ==> at_most(
            doc_texts(hits, floor, doc),
            cap,
        ) == doc_texts(hits, floor, doc),
        forall|i: int|
            0 <= i < at_most(doc_texts(hits, floor, doc), cap).len() ==> #[trigger] at_most(
                doc_texts(hits, floor, doc),
                cap,
            )[i] == doc_texts(hits, floor, doc)[i],
    decreases hits.len(),
{
    reveal(Seq::filter);
    let own = |h: ChunkHit|
        h.doc_hash == doc && (floor matches Some(least) ==> !h.score.below(least));
    let f = |h: ChunkHit| h.text@;
    if hits.len() > 0 {
        let fewer = hits.drop_last();
        evidence_is_the_document_s_own(fewer, floor, doc, cap);
        if own(hits.last()) {
            assert(fewer.filter(own).push(hits.last()).map_values(f) =~= fewer.filter(
                own,
            ).map_values(f).push(f(hits.last())));
        }
    } else {
        assert(doc_texts(hits, floor, doc) =~= hits.filter(own).map_values(f));
    }
}

/// A row has one fate. It is hit where the search found its document, pruned where
/// it has no text or the index knows its document and did not find it, and
/// unindexed otherwise; and each counter counts its rows.
pub proof fn every_row_has_one_fate(
    texts: Seq<Option<Seq<char>>>,
    found: Set<u64>,
    indexed: Set<u64>,
)
    ensures
        tally(texts, found, indexed, Fate::Hit) == texts.filter(
            |t: Option<Seq<char>>| t is Some && found.contains(hash_of(t->0)),
        ).len(),
        tally(texts, found, indexed, Fate::Pruned) == texts.filter(
            |t: Option<Seq<char>>|
                t is Some ==> !found.contains(hash_of(t->0)) && indexed.contains(hash_of(t->0)),
        ).len(),
        tally(texts, found, indexed, Fate::Unindexed) == texts.filter(
            |t: Option<Seq<char>>|
                t is Some && !found.contains(hash_of(t->0)) && !indexed.contains(hash_of(t->0)),
        ).len(),
        tally(texts, found, indexed, Fate::Hit) + tally(texts, found, indexed, Fate::Pruned)
            + tally(texts, found, indexed, Fate::Unindexed) == texts.len(),
    decreases texts.len(),
{
    reveal(Seq::filter);
    if texts.len() > 0 {
        every_row_has_one_fate(texts.drop_last(), found, indexed);
    }
}

/// A sampled document that the cache has a verdict on is labelled positive exactly
/// where the verify stage, on the same cache and without evidence, would keep it.
pub proof fn labels_agree_with_the_verify_stage(
    l: &Labeler,
    v: &Verifier,
    sample: Seq<Seq<char>>,
    c: Contents,
    j: int,
)
    requires
        v.condition_text() == l.condition@,
        v.model() == l.model_id@,
        0 <= j < l.cached_labels(sample, c).len(),
    ensures
        ({
            let label = l.cached_labels(sample, c)[j];
            let keys = v.keys(seq![Some(label.text)], Map::empty());
            &&& sample.contains(label.text)
            &&& keys[0] is Some && known(c, keys[0]->0) is Some
            &&& label.positive <==> known(c, keys[0]->0) == Some("yes"@)
        }),
{
    l.lemma_cached_labels(sample, c);
}

proof fn lemma_answered(texts: Seq<Seq<char>>, said: Seq<Option<bool>>)
    requires
        texts.len() == said.len(),
        forall|j: int| 0 <= j < said.len() ==> #[trigger] said[j] is Some,
    ensures
        Labeler::answered(texts, said).len() == said.len(),
        forall|j: int|
            0 <= j < said.len() ==> #[trigger] Labeler::answered(texts, said)[j] == (LabelView {
                text: texts[j],
                positive: said[j]->0,
            }),
    decreases said.len(),
{
    if said.len() > 0 {
        let ts = texts.drop_last();
        let vs = said.drop_last();
        assert forall|j: int| 0 <= j < vs.len() implies #[trigger] vs[j] is Some by {
            assert(said[j] is Some);
        }
        lemma_answered(ts, vs);
        assert(said[said.len() - 1] is Some);
        assert forall|j: int| 0 <= j < said.len() implies #[trigger] Labeler::answered(
            texts,
            said,
        )[j] == (LabelView { text: texts[j], positive: said[j]->0 }) by {
            if j < vs.len() {
                assert(Labeler::answered(ts, vs)[j] == (LabelView {
                    text: ts[j],
                    positive: vs[j]->0,
                }));
            }
        }
    }
}

/// A sampled document takes the verdict that was said of it, and one without a
/// usable verdict is no part of the sample.
pub proof fn a_label_is_the_verdict_that_was_said(
    texts: Seq<Seq<char>>,
    said: Seq<Option<bool>>,
    text: Seq<char>,
    positive: bool,
)
    requires
        texts.len() == said.len(),
    ensures
        Labeler::answered(texts, said).contains(LabelView { text, positive }) <==> exists|j: int|
            0 <= j < said.len() && texts[j] == text && #[trigger] said[j] == Some(positive),
        Labeler::answered(texts, said).len() + unusable(said) == said.len(),
    decreases said.len(),
{
    let label = LabelView { text, positive };
    let all = Labeler::answered(texts, said);
    if said.len() > 0 {
        let ts = texts.drop_last();
        let vs = said.drop_last();
        let last = said.len() - 1;
        a_label_is_the_verdict_that_was_said(ts, vs, text, positive);
        let before = Labeler::answered(ts, vs);
        if all.contains(label) {
            if before.contains(label) {
                let j = choose|j: int| 0 <= j < vs.len() && ts[j] == text && #[trigger] vs[j]
                    == Some(positive);
                assert(texts[j] == text && said[j] == Some(positive));
            } else {
                assert(texts[last] == text && said[last] == Some(positive));
            }
        }
        if exists|j: int|
            0 <= j < said.len() && texts[j] == text && #[trigger] said[j] == Some(positive) {
            let j = choose|j: int|
                0 <= j < said.len() && texts[j] == text && #[trigger] said[j] == Some(positive);
            if j < last {
                assert(ts[j] == text && vs[j] == Some(positive));
                let k = choose|k: int| 0 <= k < before.len() && before[k] == label;
                assert(all[k] == label);
            } else {
                assert(all[all.len() - 1] == label);
            }
        }
    }
}

/// A sample is labelled once: where every answer was usable, planning the sample
/// again on the resulting cache asks nothing and gives the labels that it came to,
/// in the order of the sample. Where nothing was cached before, they are the same
/// list.
pub proof fn a_sample_keeps_its_labels(
    l: &Labeler,
    sample: Seq<Seq<char>>,
    c: Contents,
    said: Seq<Option<bool>>,
)
    requires
        said.len() == l.unlabeled(sample, c).len(),
        unusable(said) == 0,
    ensures
        ({
            let open = l.unlabeled(sample, c);
            let keys = open.map_values(|t: Seq<char>| l.key(t));
            let after = remembered(c, keys, verdict_values(said));
            let came_to = l.cached_labels(sample, c) + Labeler::answered(
                open,
                agreed_verdicts(c, keys, said),
            );
            let again = l.cached_labels(sample, after);
            &&& l.unlabeled(sample, after).len() == 0
            &&& again.len() == sample.len()
            &&& forall|label: LabelView| came_to.contains(label) <==> again.contains(label)
            &&& l.cached_labels(sample, c).len() == 0 ==> came_to == again
        }),
{
    let missing = |t: Seq<char>| known(c, l.key(t)) is None;
    let open = l.unlabeled(sample, c);
    let keys = open.map_values(|t: Seq<char>| l.key(t));
    let values = verdict_values(said);
    let after = remembered(c, keys, values);
    let come_to = agreed_verdicts(c, keys, said);
    let cached = l.cached_labels(sample, c);
    let came_to = cached + Labeler::answered(open, come_to);
    let again = l.cached_labels(sample, after);
    sample.filter_lemma(missing);
    lemma_none_unusable(said);
    lemma_agreed_len(c, keys, values);
    assert forall|j: int| 0 <= j < open.len() implies #[trigger] come_to[j] == Some(
        known(after, l.key(open[j])) == Some("yes"@),
    ) && known(after, l.key(open[j])) is Some by {
        usable_values_are_cached(c, keys, values, j);
        assert(said[j] is Some);
        assert(values[j] is Some);
        assert(keys[j] == l.key(open[j]));
    }
    lemma_answered(open, come_to);
    assert forall|i: int| 0 <= i < sample.len() implies known(after, l.key(#[trigger] sample[i])) is Some by {
        if known(c, l.key(sample[i])) is Some {
            answers_stay_answered(c, keys, values, l.key(sample[i]));
        } else {
            assert(missing(sample[i]));
            assert(open.contains(sample[i]));
            let j = choose|j: int| 0 <= j < open.len() && open[j] == sample[i];
            assert(come_to[j] is Some);
        }
    }
    l.lemma_cached_labels(sample, c);
    lemma_all_labelled(l, sample, after);
    assert forall|label: LabelView| came_to.contains(label) <==> again.contains(label) by {
        if came_to.contains(label) {
            let k = choose|k: int| 0 <= k < came_to.len() && came_to[k] == label;
            if k < cached.len() {
                assert(cached[k] == label);
                let i = choose|i: int| 0 <= i < sample.len() && sample[i] == label.text;
                answers_stay_answered(c, keys, values, l.key(sample[i]));
                assert(again[i] == label);
            } else {
                let j = k - cached.len();
                assert(Labeler::answered(open, come_to)[j] == label);
                assert(come_to[j] == Some(known(after, l.key(open[j])) == Some("yes"@)));
                assert(open[j] == label.text);
                lemma_picked(sample, missing, j);
                let i = choose|i: int| 0 <= i < sample.len() && sample[i] == open[j];
                assert(again[i] == label);
            }
        }
        if again.contains(label) {
            let i = choose|i: int| 0 <= i < again.len() && again[i] == label;
            assert(again[i].text == sample[i]);
            if known(c, l.key(sample[i])) is Some {
                answers_stay_answered(c, keys, values, l.key(sample[i]));
                lemma_has_label(l, sample, c, i);
                let k = choose|k: int| 0 <= k < cached.len() && cached[k] == label;
                assert(came_to[k] == label);
            } else {
                assert(missing(sample[i]));
                assert(open.contains(sample[i]));
                let j = choose|j: int| 0 <= j < open.len() && open[j] == sample[i];
                assert(come_to[j] == Some(known(after, l.key(open[j])) == Some("yes"@)));
                assert(Labeler::answered(open, come_to)[j] == label);
                assert(came_to[cached.len() + j] == label);
            }
        }
    }
    let still = |t: Seq<char>| known(after, l.key(t)) is None;
    sample.filter_lemma(still);
    if l.unlabeled(sample, after).len() > 0 {
        let t = l.unlabeled(sample, after)[0];
        assert(still(t));
        lemma_picked(sample, still, 0);
        let i = choose|i: int| 0 <= i < sample.len() && sample[i] == t;
        assert(known(after, l.key(sample[i])) is Some);
    }
    if cached.len() == 0 {
        lemma_nothing_cached(l, sample, c);
        assert(came_to =~= again) by {
            assert forall|i: int| 0 <= i < sample.len() implies came_to[i] == again[i] by {
                assert(Labeler::answered(open, come_to)[i] == came_to[i]);
                assert(come_to[i] == Some(known(after, l.key(open[i])) == Some("yes"@)));
            }
        }
    }
}

/// What is picked out of a sample is of the sample.
proof fn lemma_picked(
    sample: Seq<Seq<char>>,
    pick: spec_fn(Seq<char>) -> bool,
    j: int,
)
    requires
        0 <= j < sample.filter(pick).len(),
    ensures
        sample.contains(sample.filter(pick)[j]),
    decreases sample.len(),
{
    reveal(Seq::filter);
    if sample.len() > 0 {
        let less = sample.drop_last();
        if j < less.filter(pick).len() {
            lemma_picked(less, pick, j);
            let t = less.filter(pick)[j];
            let i = choose|i: int| 0 <= i < less.len() && less[i] == t;
            assert(sample[i] == t);
        } else {
            assert(sample[sample.len() - 1] == sample.filter(pick)[j]);
        }
    }
}

proof fn lemma_nothing_cached(l: &Labeler, sample: Seq<Seq<char>>, c: Contents)
    requires
        l.cached_labels(sample, c).len() == 0,
    ensures
        l.unlabeled(sample, c) == sample,
    decreases sample.len(),
{
    reveal(Seq::filter);
    if sample.len() > 0 {
        lemma_nothing_cached(l, sample.drop_last(), c);
        assert(sample.drop_last().push(sample.last()) =~= sample);
    } else {
        assert(l.unlabeled(sample, c) =~= sample);
    }
}

proof fn lemma_all_labelled(l: &Labeler, sample: Seq<Seq<char>>, c: Contents)
    requires
        forall|i: int| 0 <= i < sample.len() ==> known(c, l.key(#[trigger] sample[i])) is Some,
    ensures
        l.cached_labels(sample, c).len() == sample.len(),
        forall|i: int|
            0 <= i < sample.len() ==> #[trigger] l.cached_labels(sample, c)[i] == (LabelView {
                text: sample[i],
                positive: known(c, l.key(sample[i])) == Some("yes"@),
            }),
    decreases sample.len(),
{
    if sample.len() > 0 {
        let less = sample.drop_last();
        assert forall|i: int| 0 <= i < less.len() implies known(c, l.key(#[trigger] less[i])) is Some by {
            assert(less[i] == sample[i]);
        }
        lemma_all_labelled(l, less, c);
        assert(known(c, l.key(sample[sample.len() - 1])) is Some);
        assert forall|i: int| 0 <= i < sample.len() implies #[trigger] l.cached_labels(sample, c)[i]
            == (LabelView {
            text: sample[i],
            positive: known(c, l.key(sample[i])) == Some("yes"@),
        }) by {
            if i < less.len() {
                assert(l.cached_labels(less, c)[i].text == less[i]);
            }
        }
    }
}

proof fn lemma_has_label(l: &Labeler, sample: Seq<Seq<char>>, c: Contents, i: int)
    requires
        0 <= i < sample.len(),
        known(c, l.key(sample[i])) is Some,
    ensures
        l.cached_labels(sample, c).contains(
            LabelView { text: sample[i], positive: known(c, l.key(sample[i])) == Some("yes"@) },
        ),
    decreases sample.len(),
{
    let label = LabelView {
        text: sample[i],
        positive: known(c, l.key(sample[i])) == Some("yes"@),
    };
    let all = l.cached_labels(sample, c);
    if i < sample.len() - 1 {
        let less = sample.drop_last();
        lemma_has_label(l, less, c, i);
        let before = l.cached_labels(less, c);
        let k = choose|k: int| 0 <= k < before.len() && before[k] == label;
        assert(all[k] == label);
    } else {
        assert(all[all.len() - 1] == label);
    }
}

/// The best score of a document is that of its first hit and, where the hits
/// arrive best first, no hit of the document has a better one.
pub proof fn the_best_score_is_the_best(hits: Seq<ChunkHit>, doc: u64)
    ensures
        best_score(hits, doc) is None <==> forall|q: int|
            0 <= q < hits.len() ==> (#[trigger] hits[q]).doc_hash != doc,
        best_score(hits, doc) is Some ==> exists|p: int|
            0 <= p < hits.len() && (#[trigger] hits[p]).doc_hash == doc && Some(hits[p].score)
                == best_score(hits, doc) && forall|q: int|
                0 <= q < p ==> (#[trigger] hits[q]).doc_hash != doc,
        best_score(hits, doc) is Some && (forall|a: int, b: int|
            0 <= a < b < hits.len() ==> !(#[trigger] hits[a]).score.below(
                (#[trigger] hits[b]).score,
            )) ==> forall|q: int|
            0 <= q < hits.len() && (#[trigger] hits[q]).doc_hash == doc ==> !best_score(
                hits,
                doc,
            )->0.below(hits[q].score),
    decreases hits.len(),
{
    if hits.len() > 0 {
        let rest = hits.drop_first();
        the_best_score_is_the_best(rest, doc);
        if hits[0].doc_hash != doc {
            if best_score(hits, doc) is None {
                assert forall|q: int| 0 <= q < hits.len() implies (#[trigger] hits[q]).doc_hash
                    != doc by {
                    if q > 0 {
                        assert(rest[q - 1] == hits[q]);
                    }
                }
            } else {
                let p = choose|p: int|
                    0 <= p < rest.len() && (#[trigger] rest[p]).doc_hash == doc && Some(
                        rest[p].score,
                    ) == best_score(rest, doc) && forall|q: int|
                        0 <= q < p ==> (#[trigger] rest[q]).doc_hash != doc;
                assert(hits[p + 1] == rest[p]);
                assert forall|q: int| 0 <= q < p + 1 implies (#[trigger] hits[q]).doc_hash != doc by {
                    if q > 0 {
                        assert(rest[q - 1] == hits[q]);
                    }
                }
                if forall|a: int, b: int|
                    0 <= a < b < hits.len() ==> !(#[trigger] hits[a]).score.below(
                        (#[trigger] hits[b]).score,
                    ) {
                    assert forall|a: int, b: int| 0 <= a < b < rest.len() implies !(
                    #[trigger] rest[a]).score.below((#[trigger] rest[b]).score) by {
                        assert(rest[a] == hits[a + 1] && rest[b] == hits[b + 1]);
                    }
                    assert forall|q: int|
                        0 <= q < hits.len() && (#[trigger] hits[q]).doc_hash
                            == doc implies !best_score(hits, doc)->0.below(hits[q].score) by {
                        assert(rest[q - 1] == hits[q]);
                    }
                }
            }
        } else {
            assert(hits[0].doc_hash == doc);
        }
    }
}

/// A sample says of the index what its true matches say: the scores are the best
/// scores of those that the search returned, in the order of the sample; of the
/// rest the counters count those that are indexed and those that are not; and
/// a document that is no match says nothing.
pub proof fn a_sample_scores_its_true_matches(
    labels: Seq<LabelView>,
    hits: Seq<ChunkHit>,
    indexed: Set<u64>,
)
    ensures
        positive_scores(labels, hits) == labels.filter(
            |l: LabelView| l.positive && best_score(hits, hash_of(l.text)) is Some,
        ).map_values(|l: LabelView| best_score(hits, hash_of(l.text))->0),
        unscored(labels, hits, indexed, true) == labels.filter(
            |l: LabelView|
                l.positive && best_score(hits, hash_of(l.text)) is None && indexed.contains(
                    hash_of(l.text),
                ),
        ).len(),
        unscored(labels, hits, indexed, false) == labels.filter(
            |l: LabelView|
                l.positive && best_score(hits, hash_of(l.text)) is None && !indexed.contains(
                    hash_of(l.text),
                ),
        ).len(),
        positive_scores(labels, hits).len() + unscored(labels, hits, indexed, true) + unscored(
            labels,
            hits,
            indexed,
            false,
        ) == labels.filter(|l: LabelView| l.positive).len(),
    decreases labels.len(),
{
    reveal(Seq::filter);
    let found = |l: LabelView| l.positive && best_score(hits, hash_of(l.text)) is Some;
    let f = |l: LabelView| best_score(hits, hash_of(l.text))->0;
    if labels.len() > 0 {
        let fewer = labels.drop_last();
        a_sample_scores_its_true_matches(fewer, hits, indexed);
        if found(labels.last()) {
            assert(fewer.filter(found).push(labels.last()).map_values(f) =~= fewer.filter(
                found,
            ).map_values(f).push(f(labels.last())));
        }
    } else {
        assert(positive_scores(labels, hits) =~= labels.filter(found).map_values(f));
    }
}

}
