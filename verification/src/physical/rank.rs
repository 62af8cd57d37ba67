//! The rerank stage: semantic ranking as a two-stage funnel.
//!
//! Stage one is the semantic index: one embed call picks the candidates by
//! cosine similarity, over-fetching a multiple of the query's `LIMIT`. Stage two
//! spends the model, scoring each candidate's best chunks on a scale from 0 to
//! 1. Cost is a function of the `LIMIT`, not of the table's size.
//!
//! Row semantics ("rows fail, queries don't"): a row whose model call errors or
//! answers unparseably gets a NULL score and is counted. NULLs sort last under
//! `DESC`, so a failure costs a row its ranking, not the query its results.

use std::collections::{HashMap, HashSet};

use serde_json::Value;
use vstd::prelude::*;

use crate::cache::{
    hash_input, input_hash, known, lookup, CacheKey, CachedValue, Contents, KeyView, SemanticCache,
};
use crate::index::{
    distinct_documents, distinct_texts, doc_hash, hash_of, opt_views, ChunkHit, SearchParams,
};
use crate::json::{
    json_of, object_value, parse_real, real_parsed, real_written, set_member, value_member,
    value_real, value_real_text, Json,
};
use crate::logical::sem_rank::lemma_same_middle;
use crate::model::{answer_text, answer_texts, Answer, CompletionRequest, ModelId, RequestView};
use crate::number::{Double, Single, NEG_INFINITY_SINGLE, ONE};
use crate::physical::classify::{
    a_closed_schema_admits_no_other_member, closed_object, closed_object_schema, plain_property,
};
use crate::physical::extract::{object_in, parse_json_object};
use crate::physical::index_scan::{
    add_chunk, at_most, chunk_views, doc_texts, fate, lemma_add_chunk, row_fate, tally, Fate,
};
use crate::physical::verify::{means_key, CHUNK_SEPARATOR};
use crate::physical::{
    a_rerun_misses_nothing, answers_stay_answered, failures_are_not_cached, hits,
    lemma_none_unusable, missed_keys, misses, misses_are_the_unanswered,
    other_questions_are_untouched, remembered, unusable, usable_values_are_cached,
};
use crate::text::{
    a_framed_text_stands_in_the_whole, concat3, decimal, join, joined, joining_keeps_every_part,
    occurs_in, views,
};

verus! {

/// Version of the synthesized rerank prompt. Participates in cache keys: bump
/// it and every cached score is honestly invalidated.
pub const RELEVANCE_PROMPT_VERSION: &'static str = "relevance-v1";

pub open spec fn relevance_prompt(query: Seq<char>) -> Seq<char> {
    "You are scoring how well a document matches a search query. You see the document's most relevant excerpts, separated by `---`; the excerpts may be partial.\n\nQuery: "@
        + query
        + "\n\nReply with a JSON object {\"score\": n} where n is between 0 and 1: 1 means the document is exactly what the query asks for, 0 means it is unrelated."@
}

/// The prompt holds the query, word for word.
pub proof fn the_prompt_states_the_query(query: Seq<char>)
    ensures
        exists|i: int|
            0 <= i && i + query.len() <= relevance_prompt(query).len()
                && #[trigger] relevance_prompt(query).subrange(i, i + query.len()) == query,
{
    let head =
        "You are scoring how well a document matches a search query. You see the document's most relevant excerpts, separated by `---`; the excerpts may be partial.\n\nQuery: "@;
    let tail =
        "\n\nReply with a JSON object {\"score\": n} where n is between 0 and 1: 1 means the document is exactly what the query asks for, 0 means it is unrelated."@;
    a_framed_text_stands_in_the_whole(head, query, tail);
    let at = head.len() as int;
    assert(relevance_prompt(query).subrange(at, at + query.len()) == query);
}

/// Two queries never share a prompt.
pub proof fn prompts_tell_queries_apart(a: Seq<char>, b: Seq<char>)
    requires
        a != b,
    ensures
        relevance_prompt(a) != relevance_prompt(b),
{
    if relevance_prompt(a) == relevance_prompt(b) {
        lemma_same_middle(
            "You are scoring how well a document matches a search query. You see the document's most relevant excerpts, separated by `---`; the excerpts may be partial.\n\nQuery: "@,
            a,
            b,
            "\n\nReply with a JSON object {\"score\": n} where n is between 0 and 1: 1 means the document is exactly what the query asks for, 0 means it is unrelated."@,
        );
    }
}

/// The instruction the rerank model sees. Users never write this.
pub fn synthesize_relevance_prompt(query: &str) -> (r: String)
    ensures
        r@ == relevance_prompt(query@),
        exists|i: int|
            0 <= i && i + query@.len() <= r@.len() && #[trigger] r@.subrange(i, i + query@.len())
                == query@,
{
    proof {
        the_prompt_states_the_query(query@);
    }
    concat3(
        "You are scoring how well a document matches a search query. You see the document's most relevant excerpts, separated by `---`; the excerpts may be partial.\n\nQuery: ",
        query,
        "\n\nReply with a JSON object {\"score\": n} where n is between 0 and 1: 1 means the document is exactly what the query asks for, 0 means it is unrelated.",
    )
}

/// The schema of an object with one member of a plain type.
pub open spec fn single_member_schema(name: Seq<char>, kind: Seq<char>) -> Json {
    closed_object_schema(
        Map::empty().insert(
            name,
            Json::Object(Map::empty().insert("type"@, Json::Text(kind))),
        ),
        seq![name],
    )
}

/// The schema of an object with one member of a plain type.
pub(crate) fn single_member(name: &str, kind: &str) -> (r: Value)
    ensures
        json_of(r) == single_member_schema(name@, kind@),
{
    let mut properties = object_value();
    set_member(&mut properties, name, plain_property(kind));
    let mut required: Vec<String> = Vec::new();
    required.push(name.to_owned());
    assert(views(required@) == seq![name@]);
    closed_object(properties, &required)
}

/// The JSON schema the score is decoded under.
pub fn score_schema() -> (r: Value)
    ensures
        json_of(r) == single_member_schema("score"@, "number"@),
{
    single_member("score", "number")
}

pub open spec fn relevance_key(query: Seq<char>, input: Seq<char>, model_id: Seq<char>) -> KeyView {
    KeyView {
        type_version: query,
        field: "relevance"@,
        input_hash: input_hash(input),
        model_id,
        prompt_version: RELEVANCE_PROMPT_VERSION@,
    }
}

/// Full provenance: same query, sent excerpts, model and prompt scheme give the
/// same score, across every query that ever asks again.
pub fn relevance_cache_key(query: &str, input: &str, model_id: &ModelId) -> (r: CacheKey)
    ensures
        r@ == relevance_key(query@, input@, model_id@),
{
    CacheKey {
        type_version: query.to_owned(),
        field: "relevance".to_owned(),
        input_hash: hash_input(input),
        model_id: model_id.copy(),
        prompt_version: RELEVANCE_PROMPT_VERSION.to_owned(),
    }
}

/// A number brought into the range from zero to one.
pub open spec fn clamped(d: Double) -> Double {
    if d.below(Double { bits: 0 }) {
        Double { bits: 0 }
    } else if (Double { bits: ONE }).below(d) {
        Double { bits: ONE }
    } else {
        d
    }
}

/// The decimal text of a number brought into the range from zero to one.
pub open spec fn clamped_text(d: Double) -> Seq<char> {
    if d.below(Double { bits: 0 }) {
        "0"@
    } else if (Double { bits: ONE }).below(d) {
        "1"@
    } else {
        real_written(d.bits)
    }
}

/// The number that an answer gives as its score, before it is clamped.
pub open spec fn raw_score(text: Seq<char>) -> Option<Double> {
    match object_in(text) {
        Some(object) => match object.member("score"@) {
            Some(j) => match j.as_real() {
                Some(b) => if (Double { bits: b }).is_nan() {
                    None
                } else {
                    Some(Double { bits: b })
                },
                None => None,
            },
            None => None,
        },
        None => None,
    }
}

/// The score that an answer gives.
pub open spec fn score_of(text: Seq<char>) -> Option<Double> {
    match raw_score(text) {
        Some(d) => Some(clamped(d)),
        None => None,
    }
}

/// A score, and its decimal text.
#[derive(Debug)]
pub struct Score {
    pub value: Double,
    pub text: String,
}

/// The score that an answer gives, with its decimal text.
fn read_score(text: &str) -> (r: Option<Score>)
    ensures
        r is Some <==> raw_score(text@) is Some,
        r matches Some(s) ==> s.value == clamped(raw_score(text@)->0) && s.text@ == clamped_text(
            raw_score(text@)->0,
        ),
{
    let object = match parse_json_object(text) {
        Some(object) => object,
        None => {
            return None;
        },
    };
    let member = match value_member(&object, "score") {
        Some(member) => member,
        None => {
            return None;
        },
    };
    let value = match value_real(member) {
        Some(value) => value,
        None => {
            return None;
        },
    };
    if value.nan() {
        return None;
    }
    let zero = Double { bits: 0 };
    let one = Double { bits: ONE };
    if value.lt(zero) {
        Some(Score { value: zero, text: "0".to_owned() })
    } else if one.lt(value) {
        Some(Score { value: one, text: "1".to_owned() })
    } else {
        match value_real_text(member) {
            Some(text) => Some(Score { value, text }),
            None => None,
        }
    }
}

/// `None` means the model didn't give a usable score. Out-of-range answers are
/// clamped rather than dropped: a model that says `1.2` still means "very
/// relevant".
pub fn parse_score(text: &str) -> (r: Option<Double>)
    ensures
        r == score_of(text@),
{
    match read_score(text) {
        Some(score) => Some(score.value),
        None => None,
    }
}

/// A score never leaves the range from zero to one.
pub proof fn scores_stay_in_range(text: Seq<char>)
    requires
        score_of(text) is Some,
    ensures
        (Double { bits: 0 }).at_most(score_of(text)->0),
        score_of(text)->0.at_most(Double { bits: ONE }),
{
}

/// The documents of some hits, in the order in which they first appear.
pub open spec fn hit_documents(hits: Seq<ChunkHit>) -> Seq<u64>
    decreases hits.len(),
{
    if hits.len() == 0 {
        Seq::empty()
    } else {
        let before = hit_documents(hits.drop_last());
        if before.contains(hits.last().doc_hash) {
            before
        } else {
            before.push(hits.last().doc_hash)
        }
    }
}

/// The first `n` of some documents, or all of them.
pub open spec fn first_documents(docs: Seq<u64>, n: nat) -> Seq<u64> {
    if docs.len() <= n {
        docs
    } else {
        docs.take(n as int)
    }
}

/// Bucket search hits into the top `candidates` documents' evidence, best
/// first, at most `chunks_per_doc` chunks each. Hits arrive best first, so the
/// first distinct documents are the top ones by cosine similarity.
pub fn bucket_candidates(hits: &Vec<ChunkHit>, candidates: usize, chunks_per_doc: usize) -> (r: HashMap<
    u64,
    Vec<String>,
>)
    ensures
        forall|d: u64| #[trigger]
            r@.contains_key(d) <==> first_documents(
                hit_documents(hits@),
                candidates as nat,
            ).contains(d),
        forall|d: u64| #[trigger]
            r@.contains_key(d) ==> views(r@[d]@) == at_most(
                doc_texts(hits@, None, d),
                chunks_per_doc as nat,
            ),
        r@.len() <= candidates,
{
    let mut chunks: HashMap<u64, Vec<String>> = HashMap::new();
    let ghost cap = candidates as nat;
    let ghost per = chunks_per_doc as nat;
    let mut i: usize = 0;
    while i < hits.len()
        invariant
            i <= hits.len(),
            cap == candidates,
            per == chunks_per_doc,
            chunks@.dom().finite(),
            chunks@.len() == first_documents(hit_documents(hits@.take(i as int)), cap).len(),
            forall|d: u64| #[trigger]
                chunks@.contains_key(d) <==> first_documents(
                    hit_documents(hits@.take(i as int)),
                    cap,
                ).contains(d),
            forall|d: u64| #[trigger]
                chunks@.contains_key(d) ==> doc_texts(hits@.take(i as int), None, d).len() > 0
                    && views(chunks@[d]@) == at_most(doc_texts(hits@.take(i as int), None, d), per),
        decreases hits.len() - i,
    {
        let ghost seen = hits@.take(i as int);
        assert(hits@.take(i + 1) == seen.push(hits@[i as int]));
        assert(hits@.take(i + 1).drop_last() == seen);
        let hit = &hits[i];
        let doc: u64 = hit.doc_hash;
        let ghost docs = hit_documents(seen);
        let ghost docs2 = hit_documents(hits@.take(i + 1));
        assert(docs2 == if docs.contains(doc) {
            docs
        } else {
            docs.push(doc)
        });
        let known_doc: bool = chunks.contains_key(&doc);
        proof {
            lemma_first_documents(docs, docs2, doc, cap);
            lemma_doc_texts_of_unseen(seen, doc);
        }
        if known_doc || chunks.len() < candidates {
            let ghost before = chunks@;
            add_chunk(&mut chunks, doc, &hit.text, chunks_per_doc);
            proof {
                if !known_doc {
                    assert(docs.len() < cap);
                    assert(!docs.contains(doc));
                }
                lemma_add_chunk(before, chunks@, seen, hits@[i as int], None, per);
                assert(chunks@.dom() =~= before.dom().insert(doc));
                if known_doc {
                    assert(before.dom().insert(doc) =~= before.dom());
                }
                assert forall|d: u64| #[trigger]
                    chunks@.contains_key(d) <==> first_documents(docs2, cap).contains(d) by {
                    assert(before.contains_key(d) <==> first_documents(docs, cap).contains(d));
                    assert(before.contains_key(doc) <==> first_documents(docs, cap).contains(doc));
                    assert(chunks@.contains_key(d) <==> before.contains_key(d) || d == doc);
                    if known_doc {
                        assert(first_documents(docs2, cap) == first_documents(docs, cap));
                    } else {
                        let first = first_documents(docs, cap);
                        let later = first_documents(docs2, cap);
                        assert(later.contains(d) <==> first.contains(d) || d == doc);
                    }
                }
            }
        } else {
            proof {
                assert(docs.len() >= cap);
                assert forall|d: u64| #[trigger] chunks@.contains_key(d) implies doc_texts(
                    hits@.take(i + 1),
                    None,
                    d,
                ) == doc_texts(seen, None, d) by {}
            }
        }
        i += 1;
    }
    assert(hits@.take(i as int) == hits@);
    chunks
}

/// How the first documents change with one more hit.
proof fn lemma_first_documents(docs: Seq<u64>, now: Seq<u64>, doc: u64, cap: nat)
    requires
        now == if docs.contains(doc) {
            docs
        } else {
            docs.push(doc)
        },
    ensures
        ({
            let first = first_documents(docs, cap);
            let later = first_documents(now, cap);
            &&& first.contains(doc) ==> later == first
            &&& !first.contains(doc) && first.len() >= cap ==> later == first
            &&& !first.contains(doc) && first.len() < cap ==> !docs.contains(doc) && later
                == first.push(doc) && (forall|d: u64| #[trigger]
                later.contains(d) <==> first.contains(d) || d == doc)
            &&& first.len() <= cap
        }),
{
    let first = first_documents(docs, cap);
    if docs.len() > cap {
        assert forall|d: u64| first.contains(d) implies docs.contains(d) by {
            let k = choose|k: int| 0 <= k < first.len() && first[k] == d;
            assert(docs[k] == d);
        }
        assert(docs.push(doc).take(cap as int) == first);
    } else if docs.len() == cap {
        assert(docs.push(doc).take(cap as int) == docs);
    } else {
        let later = docs.push(doc);
        assert forall|d: u64| #[trigger] later.contains(d) <==> docs.contains(d) || d == doc by {
            if docs.contains(d) {
                let k = choose|k: int| 0 <= k < docs.len() && docs[k] == d;
                assert(later[k] == d);
            }
            if later.contains(d) && d != doc {
                let k = choose|k: int| 0 <= k < later.len() && later[k] == d;
                assert(docs[k] == d);
            }
            if d == doc {
                assert(later[docs.len() as int] == d);
            }
        }
    }
}

/// A document has texts exactly where it is one of the documents of the hits.
proof fn lemma_doc_texts_of_unseen(hits: Seq<ChunkHit>, doc: u64)
    ensures
        hit_documents(hits).contains(doc) <==> doc_texts(hits, None, doc).len() > 0,
    decreases hits.len(),
{
    if hits.len() > 0 {
        lemma_doc_texts_of_unseen(hits.drop_last(), doc);
        let before = hit_documents(hits.drop_last());
        let now = hit_documents(hits);
        let last = hits.last().doc_hash;
        if !before.contains(last) {
            assert forall|d: u64| now.contains(d) <==> before.contains(d) || d == last by {
                if before.contains(d) {
                    let k = choose|k: int| 0 <= k < before.len() && before[k] == d;
                    assert(now[k] == d);
                }
                if now.contains(d) && d != last {
                    let k = choose|k: int| 0 <= k < now.len() && now[k] == d;
                    assert(before[k] == d);
                }
                if d == last {
                    assert(now[before.len() as int] == d);
                }
            }
        }
    }
}


/// One rerank stage: the query, how many candidate documents the index stage
/// keeps, and how many chunks of each the model reads.
#[derive(Debug)]
pub struct Ranker {
    pub query: String,
    pub candidates: usize,
    pub chunks_per_doc: usize,
    pub model_id: ModelId,
}

/// Which rows of a batch are candidates.
#[derive(Debug)]
pub struct CandidateOutcome {
    pub keep: Vec<bool>,
    pub candidate_rows: usize,
    pub rows_pruned: usize,
    pub unindexed_rows: usize,
}

/// A document that needs a model call, and the excerpts that are sent for it.
#[derive(Debug)]
pub struct PendingScore {
    pub doc: u64,
    pub input: String,
}

/// The first step of scoring: what the cache scores, and what to ask.
#[derive(Debug)]
pub struct ScorePlan {
    pub scores: HashMap<u64, Double>,
    pub requests: Vec<CompletionRequest>,
    pub pending: Vec<PendingScore>,
    pub cache_hits: usize,
}

/// The second step of scoring: the score of each document.
#[derive(Debug)]
pub struct ScoreOutcome {
    pub scores: HashMap<u64, Double>,
    pub rows_failed: usize,
}

impl ScorePlan {
    pub open spec fn docs(&self) -> Seq<u64> {
        self.pending@.map_values(|p: PendingScore| p.doc)
    }

    pub open spec fn inputs(&self) -> Seq<Seq<char>> {
        self.pending@.map_values(|p: PendingScore| p.input@)
    }
}

/// How the scores of some answers are written in the cache.
pub open spec fn score_values(answers: Seq<Option<Seq<char>>>) -> Seq<Option<Seq<char>>> {
    answers.map_values(
        |a: Option<Seq<char>>|
            match a {
                Some(text) => match raw_score(text) {
                    Some(d) => Some(clamped_text(d)),
                    None => None,
                },
                None => None,
            },
    )
}

/// The scores once the pending documents have theirs: where what is read of two
/// documents is the same, the first score stands for both.
pub open spec fn scored(
    scores: Map<u64, Double>,
    c: Contents,
    keys: Seq<KeyView>,
    docs: Seq<u64>,
    answers: Seq<Option<Seq<char>>>,
) -> Map<u64, Double>
    decreases answers.len(),
{
    if answers.len() == 0 {
        scores
    } else {
        let keys_before = keys.drop_last();
        let before = scored(scores, c, keys_before, docs.drop_last(), answers.drop_last());
        let cache = remembered(c, keys_before, score_values(answers.drop_last()));
        match answers.last() {
            Some(text) => match score_of(text) {
                Some(v) => match known(cache, keys.last()) {
                    Some(first) => match real_parsed(first) {
                        Some(b) => before.insert(docs.last(), Double { bits: b }),
                        None => before,
                    },
                    None => before.insert(docs.last(), v),
                },
                None => before,
            },
            None => before,
        }
    }
}

impl Ranker {
    /// Search knobs for the candidate stage: no floor (the over-fetch count is
    /// the cut), and enough chunks to fill every candidate's evidence.
    pub fn search_params(&self) -> (r: SearchParams)
        ensures
            ({
                let per = if self.chunks_per_doc < 1 {
                    1
                } else {
                    self.chunks_per_doc as int
                };
                r.fetch_k == (if self.candidates * per <= usize::MAX {
                    self.candidates * per
                } else {
                    usize::MAX as int
                })
            }),
            r.score_floor == (Single { bits: NEG_INFINITY_SINGLE }),
            r.chunks_per_doc == self.chunks_per_doc,
    {
        let per: usize = if self.chunks_per_doc < 1 {
            1
        } else {
            self.chunks_per_doc
        };
        let fetch_k: usize = match self.candidates.checked_mul(per) {
            Some(n) => n,
            None => usize::MAX,
        };
        SearchParams {
            fetch_k,
            score_floor: Single { bits: NEG_INFINITY_SINGLE },
            chunks_per_doc: self.chunks_per_doc,
        }
    }

    /// Prune a batch to its candidate rows.
    ///
    /// Three-way, and deliberately unlike the `MEANS` pre-filter, which passes
    /// unindexed rows through to full-text verification. A rank has nothing to
    /// pass them through to: an unscored row has no place in an ordering. So
    /// they are dropped, but counted separately, so index staleness shows up in
    /// the funnel instead of silently shrinking results.
    pub fn keep_candidates(
        evidence: &HashMap<u64, Vec<String>>,
        indexed: &HashSet<u64>,
        texts: &Vec<Option<String>>,
    ) -> (r: CandidateOutcome)
        ensures
            ({
                let col = opt_views(texts@);
                let found = evidence@.dom();
                &&& r.keep.len() == texts.len()
                &&& forall|i: int|
                    0 <= i < texts.len() ==> #[trigger] r.keep[i] == (fate(col[i], found, indexed@)
                        == Fate::Hit)
                &&& forall|i: int|
                    0 <= i < texts.len() ==> (#[trigger] r.keep[i] <==> texts[i] is Some
                        && evidence@.contains_key(hash_of(texts[i]->0@)))
                &&& r.candidate_rows + r.rows_pruned + r.unindexed_rows == texts.len()
                &&& r.candidate_rows == tally(col, found, indexed@, Fate::Hit)
                &&& r.rows_pruned == tally(col, found, indexed@, Fate::Pruned)
                &&& r.unindexed_rows == tally(col, found, indexed@, Fate::Unindexed)
            }),
    {
        let mut keep: Vec<bool> = Vec::new();
        let mut candidate_rows: usize = 0;
        let mut rows_pruned: usize = 0;
        let mut unindexed_rows: usize = 0;
        let ghost col = opt_views(texts@);
        let ghost found = evidence@.dom();
        let mut row: usize = 0;
        while row < texts.len()
            invariant
                row <= texts.len(),
                col == opt_views(texts@),
                found == evidence@.dom(),
                keep.len() == row,
                forall|i: int|
                    0 <= i < row ==> #[trigger] keep[i] == (fate(col[i], found, indexed@)
                        == Fate::Hit),
                candidate_rows == tally(col.take(row as int), found, indexed@, Fate::Hit),
                rows_pruned == tally(col.take(row as int), found, indexed@, Fate::Pruned),
                unindexed_rows == tally(col.take(row as int), found, indexed@, Fate::Unindexed),
                candidate_rows + rows_pruned + unindexed_rows == row,
            decreases texts.len() - row,
        {
            assert(col.take(row + 1).drop_last() == col.take(row as int));
            assert(col.take(row + 1).last() == col[row as int]);
            match row_fate(&texts[row], evidence, indexed) {
                Fate::Hit => {
                    candidate_rows = candidate_rows + 1;
                    keep.push(true);
                },
                Fate::Pruned => {
                    rows_pruned = rows_pruned + 1;
                    keep.push(false);
                },
                Fate::Unindexed => {
                    unindexed_rows = unindexed_rows + 1;
                    keep.push(false);
                },
            }
            row += 1;
        }
        assert(col.take(row as int) == col);
        CandidateOutcome { keep, candidate_rows, rows_pruned, unindexed_rows }
    }

    pub open spec fn key(&self, input: Seq<char>) -> KeyView {
        relevance_key(self.query@, input, self.model_id@)
    }

    /// What the model reads of a document.
    pub open spec fn sent(text: Seq<char>, evidence: Map<u64, Seq<Seq<char>>>) -> Seq<char> {
        joined(evidence[hash_of(text)], CHUNK_SEPARATOR@)
    }

    pub open spec fn request(&self, input: Seq<char>) -> RequestView {
        RequestView {
            system: relevance_prompt(self.query@),
            input,
            max_tokens: 32,
            schema: Some(single_member_schema("score"@, "number"@)),
        }
    }

    /// What is asked of each document: nothing of one without evidence.
    pub open spec fn keys(&self, docs: Seq<Seq<char>>, evidence: Map<u64, Seq<Seq<char>>>) -> Seq<
        Option<KeyView>,
    > {
        docs.map_values(
            |t: Seq<char>|
                if evidence.contains_key(hash_of(t)) {
                    Some(self.key(Self::sent(t, evidence)))
                } else {
                    None
                },
        )
    }

    /// The scores that the cache gives. A cached text that is no number gives
    /// none.
    pub open spec fn cached_scores(
        &self,
        docs: Seq<Seq<char>>,
        evidence: Map<u64, Seq<Seq<char>>>,
        c: Contents,
    ) -> Map<u64, Double>
        decreases docs.len(),
    {
        if docs.len() == 0 {
            Map::empty()
        } else {
            let before = self.cached_scores(docs.drop_last(), evidence, c);
            match self.keys(docs, evidence).last() {
                Some(k) => match known(c, k) {
                    Some(s) => match real_parsed(s) {
                        Some(b) => before.insert(hash_of(docs.last()), Double { bits: b }),
                        None => before,
                    },
                    None => before,
                },
                None => before,
            }
        }
    }

    fn cache_key(&self, input: &str) -> (r: CacheKey)
        ensures
            r@ == self.key(input@),
    {
        relevance_cache_key(self.query.as_str(), input, &self.model_id)
    }

    /// Plans the scoring of the kept rows. Scores key on the document, so rows
    /// sharing a text value share one call.
    pub fn plan_scores<C: SemanticCache>(
        &self,
        evidence: &HashMap<u64, Vec<String>>,
        texts: &Vec<Option<String>>,
        cache: &C,
    ) -> (r: ScorePlan)
        ensures
            ({
                let docs = distinct_documents(opt_views(texts@));
                let ev = chunk_views(evidence@);
                let keys = self.keys(docs, ev);
                let c = cache.contents();
                &&& r.scores@ == self.cached_scores(docs, ev, c)
                &&& r.pending.len() == misses(keys, c).len()
                &&& r.requests.len() == r.pending.len()
                &&& forall|j: int|
                    0 <= j < r.pending.len() ==> {
                        let text = docs[misses(keys, c)[j]];
                        (#[trigger] r.pending[j]).doc == hash_of(text) && r.pending[j].input@
                            == Self::sent(text, ev) && r.requests[j]@ == self.request(
                            Self::sent(text, ev),
                        )
                    }
                &&& forall|j: int|
                    0 <= j < r.requests.len() ==> exists|i: int|
                        0 <= i && i + self.query@.len() <= (#[trigger] r.requests[j]).system@.len()
                            && #[trigger] r.requests[j].system@.subrange(i, i + self.query@.len())
                            == self.query@
                &&& r.cache_hits == hits(keys, c)
            }),
    {
        let list = distinct_texts(texts, None);
        let ghost docs = distinct_documents(opt_views(texts@));
        let ghost ev = chunk_views(evidence@);
        let ghost keys = self.keys(docs, ev);
        let ghost c = cache.contents();
        let mut scores: HashMap<u64, Double> = HashMap::new();
        let mut requests: Vec<CompletionRequest> = Vec::new();
        let mut pending: Vec<PendingScore> = Vec::new();
        let mut cache_hits: usize = 0;
        let mut i: usize = 0;
        assert(scores@ =~= self.cached_scores(docs.take(0), ev, c));
        while i < list.len()
            invariant
                i <= list.len(),
                docs == views(list@),
                ev == chunk_views(evidence@),
                keys == self.keys(docs, ev),
                c == cache.contents(),
                scores@ == self.cached_scores(docs.take(i as int), ev, c),
                pending.len() == misses(keys.take(i as int), c).len(),
                requests.len() == pending.len(),
                forall|j: int|
                    0 <= j < pending.len() ==> {
                        let text = docs[misses(keys.take(i as int), c)[j]];
                        (#[trigger] pending[j]).doc == hash_of(text) && pending[j].input@
                            == Self::sent(text, ev) && requests[j]@ == self.request(
                            Self::sent(text, ev),
                        )
                    },
                cache_hits == hits(keys.take(i as int), c),
                cache_hits <= i,
            decreases list.len() - i,
        {
            assert(keys.take(i + 1).drop_last() == keys.take(i as int));
            assert(keys.take(i + 1).last() == keys[i as int]);
            assert(docs.take(i + 1).drop_last() == docs.take(i as int));
            assert(self.keys(docs.take(i + 1), ev).last() == keys[i as int]);
            let text = &list[i];
            let doc = doc_hash(text.as_str());
            assert(ev.contains_key(doc) <==> evidence@.contains_key(doc));
            if let Some(chunks) = evidence.get(&doc) {
                let input = join(chunks, CHUNK_SEPARATOR);
                assert(input@ == Self::sent(text@, ev));
                let key = self.cache_key(input.as_str());
                match lookup(cache, &key) {
                    Some(score) => {
                        cache_hits = cache_hits + 1;
                        if let Some(value) = parse_real(score.as_str()) {
                            scores.insert(doc, value);
                        }
                    },
                    None => {
                        requests.push(
                            CompletionRequest {
                                system: synthesize_relevance_prompt(self.query.as_str()),
                                input: input.clone(),
                                max_tokens: 32,
                                schema: Some(score_schema()),
                            },
                        );
                        pending.push(PendingScore { doc, input });
                    },
                }
            }
            i += 1;
        }
        assert(docs.take(i as int) == docs);
        assert(keys.take(i as int) == keys);
        proof {
            the_prompt_states_the_query(self.query@);
            assert forall|j: int| 0 <= j < requests.len() implies exists|i: int|
                0 <= i && i + self.query@.len() <= (#[trigger] requests[j]).system@.len()
                    && #[trigger] requests[j].system@.subrange(i, i + self.query@.len())
                    == self.query@ by {
                assert(requests[j]@ == self.request(pending[j].input@));
                assert(requests[j].system@ == requests[j]@.system);
            }
        }
        ScorePlan { scores, requests, pending, cache_hits }
    }

    /// Scores the pending documents with the model's answers. Only successful
    /// scores are cached: a transient model failure must not permanently sink a
    /// row's ranking. A failed document has no score, which sorts last under
    /// `DESC`.
    pub fn apply<C: SemanticCache>(&self, plan: ScorePlan, answers: &Vec<Answer>, cache: &mut C) -> (r:
        ScoreOutcome)
        requires
            answers.len() == plan.pending.len(),
        ensures
            ({
                let said = answer_texts(answers@);
                let keys = plan.inputs().map_values(|input: Seq<char>| self.key(input));
                let c = old(cache).contents();
                &&& r.scores@ == scored(plan.scores@, c, keys, plan.docs(), said)
                &&& r.rows_failed == unusable(score_values(said))
                &&& final(cache).contents() == remembered(c, keys, score_values(said))
            }),
    {
        let ghost said = answer_texts(answers@);
        let ghost values = score_values(said);
        let ghost docs = plan.docs();
        let ghost keys = plan.inputs().map_values(|input: Seq<char>| self.key(input));
        let ghost c = cache.contents();
        let ghost first = plan.scores@;
        let ScorePlan { scores, requests: _, pending, cache_hits: _ } = plan;
        let mut scores = scores;
        let mut rows_failed: usize = 0;
        let mut j: usize = 0;
        while j < pending.len()
            invariant
                j <= pending.len() == answers.len(),
                said == answer_texts(answers@),
                values == score_values(said),
                docs == pending@.map_values(|p: PendingScore| p.doc),
                keys == pending@.map_values(|p: PendingScore| p.input@).map_values(
                    |input: Seq<char>| self.key(input),
                ),
                scores@ == scored(
                    first,
                    c,
                    keys.take(j as int),
                    docs.take(j as int),
                    said.take(j as int),
                ),
                rows_failed == unusable(values.take(j as int)),
                rows_failed <= j,
                cache.contents() == remembered(c, keys.take(j as int), values.take(j as int)),
            decreases pending.len() - j,
        {
            assert(said.take(j + 1).drop_last() == said.take(j as int));
            assert(values.take(j + 1).drop_last() == values.take(j as int));
            assert(docs.take(j + 1).drop_last() == docs.take(j as int));
            assert(keys.take(j + 1).drop_last() == keys.take(j as int));
            assert(said[j as int] == answer_text(answers[j as int]));
            assert(score_values(said.take(j as int)) == values.take(j as int));
            assert(keys[j as int] == self.key(pending[j as int].input@));
            let score: Option<Score> = match &answers[j] {
                Ok(completion) => read_score(completion.text.as_str()),
                Err(_) => None,
            };
            match score {
                Some(score) => {
                    let key = self.cache_key(pending[j].input.as_str());
                    match lookup(cache, &key) {
                        Some(kept) => if let Some(value) = parse_real(kept.as_str()) {
                            scores.insert(pending[j].doc, value);
                        },
                        None => {
                            scores.insert(pending[j].doc, score.value);
                            cache.put(key, CachedValue::Value(score.text));
                        },
                    }
                },
                None => {
                    rows_failed = rows_failed + 1;
                },
            }
            j += 1;
        }
        assert(said.take(j as int) == said);
        assert(values.take(j as int) == values);
        assert(docs.take(j as int) == docs);
        assert(keys.take(j as int) == keys);
        ScoreOutcome { scores, rows_failed }
    }

    /// The score column of a batch: NULL for a NULL text, and for a document
    /// without a score.
    pub fn with_scores(scores: &HashMap<u64, Double>, texts: &Vec<Option<String>>) -> (r: Vec<
        Option<Double>,
    >)
        ensures
            r.len() == texts.len(),
            forall|i: int|
                0 <= i < texts.len() ==> #[trigger] r[i] == (match opt_views(texts@)[i] {
                    Some(t) => if scores@.contains_key(hash_of(t)) {
                        Some(scores@[hash_of(t)])
                    } else {
                        None
                    },
                    None => None,
                }),
    {
        let mut column: Vec<Option<Double>> = Vec::new();
        let mut i: usize = 0;
        while i < texts.len()
            invariant
                i <= texts.len(),
                column.len() == i,
                forall|k: int|
                    0 <= k < i ==> #[trigger] column[k] == (match opt_views(texts@)[k] {
                        Some(t) => if scores@.contains_key(hash_of(t)) {
                            Some(scores@[hash_of(t)])
                        } else {
                            None
                        },
                        None => None,
                    }),
            decreases texts.len() - i,
        {
            let cell: Option<Double> = match &texts[i] {
                Some(text) => match scores.get(&doc_hash(text.as_str())) {
                    Some(score) => Some(*score),
                    None => None,
                },
                None => None,
            };
            column.push(cell);
            i += 1;
        }
        column
    }
}

/// Rows that share a text value share one call: no two documents that are asked
/// about have the same identity.
pub proof fn rows_sharing_a_text_share_a_call(texts: Seq<Option<Seq<char>>>)
    ensures
        forall|i: int, j: int|
            0 <= i < j < distinct_documents(texts).len() ==> hash_of(distinct_documents(texts)[i])
                != hash_of(distinct_documents(texts)[j]),
    decreases texts.len(),
{
    if texts.len() > 0 {
        rows_sharing_a_text_share_a_call(texts.drop_last());
        let before = distinct_documents(texts.drop_last());
        let now = distinct_documents(texts);
        assert forall|i: int, j: int| 0 <= i < j < now.len() implies hash_of(now[i]) != hash_of(
            now[j],
        ) by {
            if j < before.len() {
                assert(now[i] == before[i] && now[j] == before[j]);
            } else {
                let hashes = before.map_values(|t: Seq<char>| hash_of(t));
                assert(hashes[i] == hash_of(before[i]));
                assert(hashes.contains(hash_of(now[i])));
            }
        }
    }
}

/// Whether the decimal text that is kept of a score reads back as the score.
pub open spec fn score_reads_back(answer: Option<Seq<char>>) -> bool {
    match answer {
        Some(text) => match raw_score(text) {
            Some(d) => real_parsed(clamped_text(d)) == Some(clamped(d).bits),
            None => true,
        },
        None => true,
    }
}

/// The identities of the documents that are asked about.
pub open spec fn asked(docs: Seq<Seq<char>>, keys: Seq<Option<KeyView>>, c: Contents) -> Seq<u64> {
    misses(keys, c).map_values(|i: int| hash_of(docs[i]))
}

/// A number that a text stands for, as a score.
spec fn number_in(text: Option<Seq<char>>) -> Option<Double> {
    match text {
        Some(s) => match real_parsed(s) {
            Some(b) => Some(Double { bits: b }),
            None => None,
        },
        None => None,
    }
}

/// What a map gives for a document.
spec fn score_at(m: Map<u64, Double>, h: u64) -> Option<Double> {
    if m.contains_key(h) {
        Some(m[h])
    } else {
        None
    }
}

/// What the cache gives of one document among others with other identities.
proof fn lemma_cached_score(
    r: &Ranker,
    docs: Seq<Seq<char>>,
    evidence: Map<u64, Seq<Seq<char>>>,
    c: Contents,
    h: u64,
)
    requires
        forall|i: int, j: int|
            0 <= i < j < docs.len() ==> hash_of(#[trigger] docs[i]) != hash_of(#[trigger] docs[j]),
    ensures
        forall|i: int|
            0 <= i < docs.len() && hash_of(#[trigger] docs[i]) == h ==> score_at(
                r.cached_scores(docs, evidence, c),
                h,
            ) == match r.keys(docs, evidence)[i] {
                Some(k) => number_in(known(c, k)),
                None => None,
            },
        (forall|i: int| 0 <= i < docs.len() ==> hash_of(#[trigger] docs[i]) != h) ==> score_at(
            r.cached_scores(docs, evidence, c),
            h,
        ) is None,
    decreases docs.len(),
{
    if docs.len() > 0 {
        let before = docs.drop_last();
        let last = docs.len() - 1;
        assert forall|i: int, j: int| 0 <= i < j < before.len() implies hash_of(#[trigger] before[i])
            != hash_of(#[trigger] before[j]) by {
            assert(before[i] == docs[i] && before[j] == docs[j]);
        }
        lemma_cached_score(r, before, evidence, c, h);
        assert forall|i: int| 0 <= i < before.len() implies r.keys(before, evidence)[i] == r.keys(
            docs,
            evidence,
        )[i] by {}
        if hash_of(docs[last]) == h {
            assert forall|i: int| 0 <= i < before.len() implies hash_of(#[trigger] before[i]) != h by {
                assert(before[i] == docs[i]);
            }
        }
        assert forall|i: int| 0 <= i < docs.len() && hash_of(#[trigger] docs[i]) == h implies score_at(
            r.cached_scores(docs, evidence, c),
            h,
        ) == match r.keys(docs, evidence)[i] {
            Some(k) => number_in(known(c, k)),
            None => None,
        } by {
            if i < last {
                assert(before[i] == docs[i]);
                assert(hash_of(docs[i]) != hash_of(docs[last]));
            }
        }
        if forall|i: int| 0 <= i < docs.len() ==> hash_of(#[trigger] docs[i]) != h {
            assert forall|i: int| 0 <= i < before.len() implies hash_of(#[trigger] before[i]) != h by {
                assert(before[i] == docs[i]);
            }
        }
    }
}

/// What is scored of one document among others with other identities.
proof fn lemma_scored(
    scores: Map<u64, Double>,
    c: Contents,
    keys: Seq<KeyView>,
    docs: Seq<u64>,
    answers: Seq<Option<Seq<char>>>,
    h: u64,
)
    requires
        keys.len() == answers.len(),
        docs.len() == answers.len(),
        docs.no_duplicates(),
        forall|j: int| 0 <= j < keys.len() ==> known(c, #[trigger] keys[j]) is None,
        forall|j: int|
            0 <= j < answers.len() ==> score_reads_back(#[trigger] answers[j]) && score_values(
                answers,
            )[j] is Some,
        docs.contains(h) ==> score_at(scores, h) is None,
    ensures
        ({
            let now = scored(scores, c, keys, docs, answers);
            let after = remembered(c, keys, score_values(answers));
            &&& !docs.contains(h) ==> score_at(now, h) == score_at(scores, h)
            &&& forall|j: int|
                0 <= j < docs.len() && #[trigger] docs[j] == h ==> score_at(now, h) == number_in(
                    known(after, keys[j]),
                )
        }),
    decreases answers.len(),
{
    if answers.len() > 0 {
        let last = answers.len() - 1;
        let ks = keys.drop_last();
        let ds = docs.drop_last();
        let said = answers.drop_last();
        let values = score_values(answers);
        assert(score_values(said) =~= values.drop_last());
        assert forall|j: int| 0 <= j < said.len() implies score_reads_back(#[trigger] said[j])
            && score_values(said)[j] is Some by {
            assert(said[j] == answers[j]);
            assert(score_values(said)[j] == values[j]);
        }
        assert forall|j: int| 0 <= j < ks.len() implies known(c, #[trigger] ks[j]) is None by {
            assert(ks[j] == keys[j]);
        }
        if ds.contains(h) {
            let k = choose|k: int| 0 <= k < ds.len() && ds[k] == h;
            assert(docs[k] == h);
        }
        lemma_scored(scores, c, ks, ds, said, h);
        let now = scored(scores, c, keys, docs, answers);
        let cache = remembered(c, ks, score_values(said));
        let after = remembered(c, keys, values);
        assert(values[last] is Some && score_reads_back(answers[last]));
        assert(answers.last() == answers[last]);
        if !docs.contains(h) {
            if ds.contains(h) {
                let k = choose|k: int| 0 <= k < ds.len() && ds[k] == h;
                assert(docs[k] == h);
            }
            assert(docs[last] != h);
        }
        assert forall|j: int| 0 <= j < docs.len() && #[trigger] docs[j] == h implies score_at(now, h)
            == number_in(known(after, keys[j])) by {
            if j < last {
                assert(ds[j] == h);
                assert(docs[last] != h);
                assert(score_values(said)[j] is Some);
                usable_values_are_cached(c, ks, score_values(said), j);
                assert(ks[j] == keys[j]);
                assert(known(after, keys[j]) == known(cache, keys[j]));
            } else {
                assert(!ds.contains(h)) by {
                    if ds.contains(h) {
                        let k = choose|k: int| 0 <= k < ds.len() && ds[k] == h;
                        assert(docs[k] == docs[last]);
                    }
                }
                assert(docs.contains(h));
            }
        }
    }
}

/// Re-running is deterministic: where every answer held a score that reads back
/// from its decimal text, scoring the same documents on the resulting cache
/// gives the same scores.
pub proof fn a_rerun_scores_the_same(
    r: &Ranker,
    texts: Seq<Option<Seq<char>>>,
    evidence: Map<u64, Seq<Seq<char>>>,
    c: Contents,
    answers: Seq<Option<Seq<char>>>,
)
    requires
        answers.len() == misses(r.keys(distinct_documents(texts), evidence), c).len(),
        unusable(score_values(answers)) == 0,
        forall|j: int| 0 <= j < answers.len() ==> score_reads_back(#[trigger] answers[j]),
    ensures
        ({
            let docs = distinct_documents(texts);
            let keys = r.keys(docs, evidence);
            let after = remembered(c, missed_keys(keys, c), score_values(answers));
            &&& misses(keys, after).len() == 0
            &&& r.cached_scores(docs, evidence, after) == scored(
                r.cached_scores(docs, evidence, c),
                c,
                missed_keys(keys, c),
                asked(docs, keys, c),
                answers,
            )
        }),
{
    let docs = distinct_documents(texts);
    let keys = r.keys(docs, evidence);
    let open = misses(keys, c);
    let missed = missed_keys(keys, c);
    let ids = asked(docs, keys, c);
    let values = score_values(answers);
    let after = remembered(c, missed, values);
    let first = r.cached_scores(docs, evidence, c);
    let again = r.cached_scores(docs, evidence, after);
    let now = scored(first, c, missed, ids, answers);
    a_rerun_misses_nothing(keys, c, values);
    rows_sharing_a_text_share_a_call(texts);
    misses_are_the_unanswered(keys, c);
    lemma_none_unusable(values);
    assert(ids.no_duplicates()) by {
        assert forall|i: int, j: int| 0 <= i < ids.len() && 0 <= j < ids.len() && i != j implies ids[i]
            != ids[j] by {
            let (a, b) = if open[i] < open[j] {
                (open[i], open[j])
            } else {
                (open[j], open[i])
            };
            assert(hash_of(docs[a]) != hash_of(docs[b]));
        }
    }
    assert forall|j: int| 0 <= j < missed.len() implies known(c, #[trigger] missed[j]) is None by {
        assert(open.contains(open[j]));
    }
    assert forall|h: u64| score_at(again, h) == score_at(now, h) by {
        lemma_cached_score(r, docs, evidence, c, h);
        lemma_cached_score(r, docs, evidence, after, h);
        if ids.contains(h) {
            let j = choose|j: int| 0 <= j < ids.len() && ids[j] == h;
            assert(open.contains(open[j]));
            assert(hash_of(docs[open[j]]) == h);
            assert(missed[j] == keys[open[j]]->0);
            assert(score_at(first, h) is None);
            lemma_scored(first, c, missed, ids, answers, h);
            assert(ids[j] == h);
        } else {
            lemma_scored(first, c, missed, ids, answers, h);
            if exists|i: int| 0 <= i < docs.len() && hash_of(#[trigger] docs[i]) == h {
                let i = choose|i: int| 0 <= i < docs.len() && hash_of(#[trigger] docs[i]) == h;
                if keys[i] is Some {
                    if known(c, keys[i]->0) is None {
                        assert(open.contains(i));
                        let j = choose|j: int| 0 <= j < open.len() && open[j] == i;
                        assert(ids[j] == h);
                    }
                    answers_stay_answered(c, missed, values, keys[i]->0);
                }
            }
        }
    }
    assert forall|h: u64| again.contains_key(h) == now.contains_key(h) by {
        assert(score_at(again, h) == score_at(now, h));
    }
    assert forall|h: u64| again.contains_key(h) implies again[h] == now[h] by {
        assert(score_at(again, h) == score_at(now, h));
    }
    assert(again =~= now);
}

/// A score answers one question: another query, another model or excerpts of
/// another hash have another key, and a score is never kept where a verdict is.
pub proof fn a_score_answers_one_question(
    query_a: Seq<char>,
    query_b: Seq<char>,
    input_a: Seq<char>,
    input_b: Seq<char>,
    model_a: Seq<char>,
    model_b: Seq<char>,
)
    ensures
        query_a != query_b || input_hash(input_a) != input_hash(input_b) || model_a != model_b
            ==> relevance_key(query_a, input_a, model_a) != relevance_key(
            query_b,
            input_b,
            model_b,
        ),
        forall|version: Seq<char>|
            relevance_key(query_a, input_a, model_a) != #[trigger] means_key(
                query_b,
                input_b,
                model_b,
                version,
            ),
{
    let a = relevance_key(query_a, input_a, model_a);
    let b = relevance_key(query_b, input_b, model_b);
    assert(a.type_version == query_a && b.type_version == query_b);
    assert(a.model_id == model_a && b.model_id == model_b);
    reveal_strlit("relevance");
    reveal_strlit("means");
    assert("relevance"@.len() == 9 && "means"@.len() == 5);
    assert forall|version: Seq<char>| a != #[trigger] means_key(query_b, input_b, model_b, version) by {
        assert(a.field == "relevance"@);
        assert(means_key(query_b, input_b, model_b, version).field == "means"@);
    }
}

/// A score that was cached under one query is never a hit for another: whatever
/// one ranking caches, a ranking of another query, or by another model, plans the
/// same calls and takes the same scores as if it had not run.
pub proof fn scores_stay_with_their_query(
    a: &Ranker,
    b: &Ranker,
    inputs: Seq<Seq<char>>,
    answers: Seq<Option<Seq<char>>>,
    docs: Seq<Seq<char>>,
    evidence: Map<u64, Seq<Seq<char>>>,
    c: Contents,
)
    requires
        a.query@ != b.query@ || a.model_id@ != b.model_id@,
        answers.len() == inputs.len(),
    ensures
        ({
            let asked = inputs.map_values(|input: Seq<char>| a.key(input));
            let after = remembered(c, asked, score_values(answers));
            let keys = b.keys(docs, evidence);
            &&& misses(keys, after) == misses(keys, c)
            &&& hits(keys, after) == hits(keys, c)
            &&& b.cached_scores(docs, evidence, after) == b.cached_scores(docs, evidence, c)
        }),
    decreases docs.len(),
{
    let asked = inputs.map_values(|input: Seq<char>| a.key(input));
    let after = remembered(c, asked, score_values(answers));
    let keys = b.keys(docs, evidence);
    assert forall|i: int, j: int|
        0 <= i < asked.len() && 0 <= j < keys.len() && #[trigger] keys[j] is Some implies keys[j]->0
        != #[trigger] asked[i] by {
        a_score_answers_one_question(
            a.query@,
            b.query@,
            inputs[i],
            Ranker::sent(docs[j], evidence),
            a.model_id@,
            b.model_id@,
        );
    }
    other_questions_are_untouched(c, asked, score_values(answers), keys);
    if docs.len() > 0 {
        scores_stay_with_their_query(a, b, inputs, answers, docs.drop_last(), evidence, c);
        assert(keys.last() == keys[keys.len() - 1]);
    }
}

/// What the model is asked about a document: the query stands in the instruction,
/// word for word, and every excerpt stands in what it reads.
pub proof fn a_request_holds_the_query_and_the_excerpts(
    r: &Ranker,
    text: Seq<char>,
    evidence: Map<u64, Seq<Seq<char>>>,
)
    ensures
        occurs_in(r.query@, r.request(Ranker::sent(text, evidence)).system),
        forall|k: int|
            0 <= k < evidence[hash_of(text)].len() ==> occurs_in(
                #[trigger] evidence[hash_of(text)][k],
                r.request(Ranker::sent(text, evidence)).input,
            ),
{
    the_prompt_states_the_query(r.query@);
    let parts = evidence[hash_of(text)];
    assert forall|k: int| 0 <= k < parts.len() implies occurs_in(
        #[trigger] parts[k],
        r.request(Ranker::sent(text, evidence)).input,
    ) by {
        joining_keeps_every_part(parts, CHUNK_SEPARATOR@, k);
    }
}

/// A score that an answer gives is its own number: as it stands where it is in
/// range, the nearest end of the range where it is not, and the text that is kept
/// of it is that of the same number.
pub proof fn a_score_is_the_number_that_was_given(text: Seq<char>, object: Json, bits: u64)
    requires
        object_in(text) == Some(object),
        object.member("score"@) is Some,
        object.member("score"@)->0.as_real() == Some(bits),
        !(Double { bits }).is_nan(),
    ensures
        ({
            let given = Double { bits };
            let zero = Double { bits: 0 };
            let one = Double { bits: ONE };
            &&& zero.at_most(given) && given.at_most(one) ==> score_of(text) == Some(given)
                && clamped_text(given) == real_written(bits)
            &&& given.below(zero) ==> score_of(text) == Some(zero) && clamped_text(given)
                == decimal(0)
            &&& one.below(given) ==> score_of(text) == Some(one) && clamped_text(given) == decimal(
                1,
            )
        }),
{
    reveal_strlit("0");
    reveal_strlit("1");
    assert(decimal(0) =~= "0"@);
    assert(decimal(1) =~= "1"@);
}

/// An answer without a number under `score` gives none.
pub proof fn a_score_was_given(text: Seq<char>)
    ensures
        score_of(text) is Some ==> object_in(text) is Some && object_in(text)->0.member(
            "score"@,
        ) is Some && object_in(text)->0.member("score"@)->0.as_real() is Some,
{
}

/// Where a document's excerpts are asked about for the first time, its score is
/// the one that its own answer gives; without a usable answer it takes none.
pub proof fn a_document_takes_its_own_score(
    scores: Map<u64, Double>,
    c: Contents,
    keys: Seq<KeyView>,
    docs: Seq<u64>,
    answers: Seq<Option<Seq<char>>>,
    j: int,
)
    requires
        keys.len() == answers.len(),
        docs.len() == answers.len(),
        0 <= j < docs.len(),
        docs.no_duplicates(),
        known(c, keys[j]) is None,
        forall|h: int| 0 <= h < j ==> #[trigger] keys[h] != keys[j],
    ensures
        ({
            let now = scored(scores, c, keys, docs, answers);
            let said = match answers[j] {
                Some(text) => score_of(text),
                None => None,
            };
            &&& said is Some ==> now.contains_key(docs[j]) && now[docs[j]] == said->0
            &&& said is None ==> now.contains_key(docs[j]) == scores.contains_key(docs[j])
        }),
    decreases answers.len(),
{
    let last = answers.len() - 1;
    let ks = keys.drop_last();
    let ds = docs.drop_last();
    let said = answers.drop_last();
    if j < last {
        assert(ds.no_duplicates());
        assert(ks[j] == keys[j] && ds[j] == docs[j] && said[j] == answers[j]);
        assert forall|h: int| 0 <= h < j implies #[trigger] ks[h] != ks[j] by {
            assert(keys[h] != keys[j]);
        }
        a_document_takes_its_own_score(scores, c, ks, ds, said, j);
        assert(docs[last] != docs[j]);
    } else {
        let values = score_values(said);
        assert forall|h: int| 0 <= h < ks.len() && #[trigger] ks[h]
            == keys[j] implies values[h] is None by {
            assert(keys[h] != keys[j]);
        }
        failures_are_not_cached(c, ks, values, keys[j]);
        lemma_unasked_document(scores, c, ks, ds, said, docs[j]);
    }
}

proof fn lemma_unasked_document(
    scores: Map<u64, Double>,
    c: Contents,
    keys: Seq<KeyView>,
    docs: Seq<u64>,
    answers: Seq<Option<Seq<char>>>,
    doc: u64,
)
    requires
        keys.len() == answers.len(),
        docs.len() == answers.len(),
        !docs.contains(doc),
    ensures
        ({
            let now = scored(scores, c, keys, docs, answers);
            now.contains_key(doc) == scores.contains_key(doc) && (now.contains_key(doc)
                ==> now[doc] == scores[doc])
        }),
    decreases answers.len(),
{
    if answers.len() > 0 {
        let ds = docs.drop_last();
        if ds.contains(doc) {
            let k = choose|k: int| 0 <= k < ds.len() && ds[k] == doc;
            assert(docs[k] == doc);
        }
        lemma_unasked_document(scores, c, keys.drop_last(), ds, answers.drop_last(), doc);
        assert(docs[docs.len() - 1] != doc);
    }
}

/// The documents of some hits are each named once, and are those that some hit is
/// of.
pub proof fn every_hit_has_its_document(hits: Seq<ChunkHit>)
    ensures
        hit_documents(hits).no_duplicates(),
        forall|d: u64|
            hit_documents(hits).contains(d) <==> exists|q: int|
                0 <= q < hits.len() && (#[trigger] hits[q]).doc_hash == d,
    decreases hits.len(),
{
    if hits.len() > 0 {
        let fewer = hits.drop_last();
        let last = hits.len() - 1;
        every_hit_has_its_document(fewer);
        let before = hit_documents(fewer);
        let now = hit_documents(hits);
        assert forall|d: u64|
            hit_documents(hits).contains(d) <==> exists|q: int|
                0 <= q < hits.len() && (#[trigger] hits[q]).doc_hash == d by {
            if now.contains(d) {
                if before.contains(d) {
                    let q = choose|q: int| 0 <= q < fewer.len() && (#[trigger] fewer[q]).doc_hash
                        == d;
                    assert(hits[q].doc_hash == d);
                } else {
                    assert(hits[last].doc_hash == d);
                }
            }
            if exists|q: int| 0 <= q < hits.len() && (#[trigger] hits[q]).doc_hash == d {
                let q = choose|q: int| 0 <= q < hits.len() && (#[trigger] hits[q]).doc_hash == d;
                if q < last {
                    assert(fewer[q].doc_hash == d);
                    assert(before.contains(d));
                    let k = choose|k: int| 0 <= k < before.len() && before[k] == d;
                    assert(now[k] == d);
                } else if before.contains(d) {
                } else {
                    assert(now.last() == d);
                }
            }
        }
    }
}

/// The documents of some hits stand in the order of their best hits.
proof fn lemma_documents_in_hit_order(hits: Seq<ChunkHit>, i: int, j: int)
    requires
        0 <= i < j < hit_documents(hits).len(),
    ensures
        exists|p: int|
            0 <= p < hits.len() && (#[trigger] hits[p]).doc_hash == hit_documents(hits)[i]
                && forall|q: int|
                0 <= q < hits.len() && (#[trigger] hits[q]).doc_hash == hit_documents(hits)[j]
                    ==> p < q,
    decreases hits.len(),
{
    if hits.len() > 0 {
        let fewer = hits.drop_last();
        let last = hits.len() - 1;
        let before = hit_documents(fewer);
        let now = hit_documents(hits);
        every_hit_has_its_document(fewer);
        every_hit_has_its_document(hits);
        if j < before.len() {
            lemma_documents_in_hit_order(fewer, i, j);
            let p = choose|p: int|
                0 <= p < fewer.len() && (#[trigger] fewer[p]).doc_hash == before[i] && forall|q: int|
                    0 <= q < fewer.len() && (#[trigger] fewer[q]).doc_hash == before[j] ==> p < q;
            assert(hits[p].doc_hash == now[i]);
            assert forall|q: int|
                0 <= q < hits.len() && (#[trigger] hits[q]).doc_hash == now[j] implies p < q by {
                if q < last {
                    assert(fewer[q].doc_hash == before[j]);
                }
            }
        } else {
            assert(before.contains(before[i]));
            let p = choose|p: int| 0 <= p < fewer.len() && (#[trigger] fewer[p]).doc_hash
                == before[i];
            assert(hits[p].doc_hash == now[i]);
            assert forall|q: int|
                0 <= q < hits.len() && (#[trigger] hits[q]).doc_hash == now[j] implies p < q by {
                if q < last {
                    assert(fewer[q].doc_hash == now[j]);
                    assert(before.contains(now[j]));
                }
            }
        }
    }
}

/// The candidates are the best documents: as many as were wished for, as far as
/// there are so many, and each has a hit that comes before every hit of a document
/// that was left out.
pub proof fn the_best_hits_choose_the_candidates(
    hits: Seq<ChunkHit>,
    wished: nat,
    chosen: u64,
    left_out: u64,
)
    ensures
        ({
            let docs = hit_documents(hits);
            let kept = first_documents(docs, wished);
            &&& kept.len() <= wished
            &&& kept.len() < wished ==> kept == docs
            &&& kept.contains(chosen) && !kept.contains(left_out) && docs.contains(left_out)
                ==> exists|p: int|
                0 <= p < hits.len() && (#[trigger] hits[p]).doc_hash == chosen && forall|q: int|
                    0 <= q < hits.len() && (#[trigger] hits[q]).doc_hash == left_out ==> p < q
        }),
{
    let docs = hit_documents(hits);
    let kept = first_documents(docs, wished);
    if kept.contains(chosen) && !kept.contains(left_out) && docs.contains(left_out) {
        let i = choose|i: int| 0 <= i < kept.len() && kept[i] == chosen;
        let j = choose|j: int| 0 <= j < docs.len() && docs[j] == left_out;
        assert(docs[i] == chosen);
        if j < kept.len() {
            assert(kept[j] == left_out);
        }
        lemma_documents_in_hit_order(hits, i, j);
    }
}

/// An answer of one member holds that member, of its type, and nothing else.
pub proof fn an_answer_of_one_member_holds_it(name: Seq<char>, kind: Seq<char>, other: Seq<char>)
    ensures
        ({
            let schema = single_member_schema(name, kind);
            &&& schema.member("properties"@) matches Some(properties) && properties.member(
                name,
            ) is Some && properties.member(name)->0.member("type"@) == Some(Json::Text(kind)) && (
            other != name ==> properties.member(other) is None)
            &&& schema.member("required"@) matches Some(Json::Array(names)) && names.len() == 1
                && names[0] == Json::Text(name)
            &&& schema.member("additionalProperties"@) == Some(Json::Bool(false))
        }),
{
    a_closed_schema_admits_no_other_member(
        Map::empty().insert(name, Json::Object(Map::empty().insert("type"@, Json::Text(kind)))),
        seq![name],
        0,
    );
}

}
