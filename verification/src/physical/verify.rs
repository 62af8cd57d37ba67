//! The verify stage, the operator that spends model calls.
//!
//! Row semantics ("rows fail, queries don't"): a NULL text never matches and
//! costs no call; a row whose model call errors or answers unparseably is
//! excluded and counted.

use vstd::prelude::*;

use crate::cache::{
    hash_input, input_hash, known, lookup, CacheKey, CachedValue, Contents, KeyView, SemanticCache,
};
use crate::index::{doc_hash, hash_of, opt_views};
use crate::logical::sem_rank::lemma_same_middle;
use crate::model::{answer_text, answer_texts, Answer, CompletionRequest, ModelId, RequestView};
use crate::physical::index_scan::ChunkEvidence;
use crate::physical::{
    a_rerun_misses_nothing, agreed, answers_stay_answered, first_kept, hits, keep_first,
    lemma_agreed_len, lemma_agreed_prefix, lemma_all_usable, lemma_none_unusable, missed_keys,
    misses, misses_are_the_unanswered, remembered, the_first_usable_value_stands, unusable,
    usable_values_are_cached,
};
use crate::text::{
    a_framed_text_stands_in_the_whole, a_part_of_a_part_is_a_part, concat3, is_punctuation,
    is_space, join, joined, joining_keeps_every_part, lowered, occurs_in, same_ignore_case,
    same_ignoring_case, trim, trim_of, trimmed, trimmed_of, trimming_leaves_the_core,
    what_is_trimmed_stands_in_the_text, Class,
};

verus! {

/// Version of the synthesized `MEANS` verify prompt. Participates in cache
/// keys: bump it and every cached verdict is honestly invalidated.
pub const MEANS_PROMPT_VERSION: &'static str = "means-v2";

/// Separates chunks in a chunked verify input; part of the cache-keyed input,
/// so changing it invalidates exactly the chunked verdicts.
pub const CHUNK_SEPARATOR: &'static str = "\n---\n";

pub open spec fn means_prompt(condition: Seq<char>) -> Seq<char> {
    "You are evaluating a predicate over a document. Answer with exactly one word: yes or no.\n\nPredicate: "@
        + condition + "\n\nDoes the document satisfy the predicate?"@
}

pub open spec fn means_prompt_chunked(condition: Seq<char>) -> Seq<char> {
    "You are evaluating a predicate over excerpts from a document, separated by `---`. The excerpts may be partial. Answer with exactly one word: yes or no.\n\nPredicate: "@
        + condition + "\n\nDo the excerpts show the document satisfies the predicate?"@
}

/// Both prompts hold the condition, word for word.
pub proof fn prompts_state_the_condition(condition: Seq<char>)
    ensures
        exists|i: int|
            0 <= i && i + condition.len() <= means_prompt(condition).len()
                && #[trigger] means_prompt(condition).subrange(i, i + condition.len()) == condition,
        exists|i: int|
            0 <= i && i + condition.len() <= means_prompt_chunked(condition).len()
                && #[trigger] means_prompt_chunked(condition).subrange(i, i + condition.len())
                == condition,
{
    let head =
        "You are evaluating a predicate over a document. Answer with exactly one word: yes or no.\n\nPredicate: "@;
    let tail = "\n\nDoes the document satisfy the predicate?"@;
    a_framed_text_stands_in_the_whole(head, condition, tail);
    let at = head.len() as int;
    assert(means_prompt(condition).subrange(at, at + condition.len()) == condition);
    let chunked_head =
        "You are evaluating a predicate over excerpts from a document, separated by `---`. The excerpts may be partial. Answer with exactly one word: yes or no.\n\nPredicate: "@;
    let chunked_tail = "\n\nDo the excerpts show the document satisfies the predicate?"@;
    a_framed_text_stands_in_the_whole(chunked_head, condition, chunked_tail);
    let chunked_at = chunked_head.len() as int;
    assert(means_prompt_chunked(condition).subrange(chunked_at, chunked_at + condition.len())
        == condition);
}

/// Two conditions never share a prompt, and the prompt for a document is never
/// that for excerpts.
pub proof fn prompts_tell_conditions_apart(a: Seq<char>, b: Seq<char>)
    ensures
        a != b ==> means_prompt(a) != means_prompt(b),
        a != b ==> means_prompt_chunked(a) != means_prompt_chunked(b),
        means_prompt(a) != means_prompt_chunked(b),
{
    if means_prompt(a) == means_prompt(b) {
        lemma_same_middle(
            "You are evaluating a predicate over a document. Answer with exactly one word: yes or no.\n\nPredicate: "@,
            a,
            b,
            "\n\nDoes the document satisfy the predicate?"@,
        );
    }
    if means_prompt_chunked(a) == means_prompt_chunked(b) {
        lemma_same_middle(
            "You are evaluating a predicate over excerpts from a document, separated by `---`. The excerpts may be partial. Answer with exactly one word: yes or no.\n\nPredicate: "@,
            a,
            b,
            "\n\nDo the excerpts show the document satisfies the predicate?"@,
        );
    }
    reveal_strlit(
        "You are evaluating a predicate over a document. Answer with exactly one word: yes or no.\n\nPredicate: ",
    );
    reveal_strlit(
        "You are evaluating a predicate over excerpts from a document, separated by `---`. The excerpts may be partial. Answer with exactly one word: yes or no.\n\nPredicate: ",
    );
    assert(means_prompt(a)[36] == 'a');
    assert(means_prompt_chunked(b)[36] == 'e');
}

/// The instruction the verify model sees. Users never write this.
pub fn synthesize_means_prompt(condition: &str) -> (r: String)
    ensures
        r@ == means_prompt(condition@),
        exists|i: int|
            0 <= i && i + condition@.len() <= r@.len() && #[trigger] r@.subrange(
                i,
                i + condition@.len(),
            ) == condition@,
{
    proof {
        prompts_state_the_condition(condition@);
    }
    concat3(
        "You are evaluating a predicate over a document. Answer with exactly one word: yes or no.\n\nPredicate: ",
        condition,
        "\n\nDoes the document satisfy the predicate?",
    )
}

/// The chunked variant: the model sees the document's best excerpts from the
/// semantic index, not the whole text.
pub fn synthesize_means_prompt_chunked(condition: &str) -> (r: String)
    ensures
        r@ == means_prompt_chunked(condition@),
        exists|i: int|
            0 <= i && i + condition@.len() <= r@.len() && #[trigger] r@.subrange(
                i,
                i + condition@.len(),
            ) == condition@,
{
    proof {
        prompts_state_the_condition(condition@);
    }
    concat3(
        "You are evaluating a predicate over excerpts from a document, separated by `---`. The excerpts may be partial. Answer with exactly one word: yes or no.\n\nPredicate: ",
        condition,
        "\n\nDo the excerpts show the document satisfies the predicate?",
    )
}

/// The provenance of a `MEANS` verdict.
pub open spec fn means_key(
    condition: Seq<char>,
    input: Seq<char>,
    model_id: Seq<char>,
    prompt_version: Seq<char>,
) -> KeyView {
    KeyView {
        type_version: condition,
        field: "means"@,
        input_hash: input_hash(input),
        model_id,
        prompt_version,
    }
}

/// Full provenance: same condition, sent input, model and prompt scheme give
/// the same verdict, across every query that ever asks again. Shared with
/// `WITH RECALL` calibration, whose ground-truth labels are exactly full-text
/// verdicts: the two stages pay for each other's cache.
pub fn means_cache_key(
    condition: &str,
    input: &str,
    model_id: &ModelId,
    prompt_version: &str,
) -> (r: CacheKey)
    ensures
        r@ == means_key(condition@, input@, model_id@, prompt_version@),
{
    CacheKey {
        type_version: condition.to_owned(),
        field: "means".to_owned(),
        input_hash: hash_input(input),
        model_id: model_id.copy(),
        prompt_version: prompt_version.to_owned(),
    }
}

/// What an answer says: `None` means the model didn't give a usable yes or no.
pub open spec fn verdict_of(text: Seq<char>) -> Option<bool> {
    let normalized = trimmed_of(trimmed(text), Class::Punctuation);
    if same_ignoring_case(normalized, "yes"@) {
        Some(true)
    } else if same_ignoring_case(normalized, "no"@) {
        Some(false)
    } else {
        None
    }
}

/// `None` means the model didn't give a usable yes or no.
pub fn parse_verdict(text: &str) -> (r: Option<bool>)
    ensures
        r == verdict_of(text@),
{
    let trimmed_text = trim(text);
    let normalized = trim_of(trimmed_text.as_str(), Class::Punctuation);
    if same_ignore_case(normalized.as_str(), "yes") {
        Some(true)
    } else if same_ignore_case(normalized.as_str(), "no") {
        Some(false)
    } else {
        None
    }
}

/// How a verdict is written in the cache.
pub open spec fn yes_no(verdict: bool) -> Seq<char> {
    if verdict {
        "yes"@
    } else {
        "no"@
    }
}

/// How a verdict is written in the cache.
pub fn verdict_text(verdict: bool) -> (r: String)
    ensures
        r@ == yes_no(verdict),
{
    if verdict {
        "yes".to_owned()
    } else {
        "no".to_owned()
    }
}

/// A cached verdict reads back as the verdict that was written.
pub proof fn cached_verdicts_read_back(verdict: bool)
    ensures
        (yes_no(verdict) == "yes"@) == verdict,
{
    reveal_strlit("yes");
    reveal_strlit("no");
    assert("yes"@.len() == 3 && "no"@.len() == 2);
}

/// What the model said to one request, if anything usable.
pub open spec fn answer_verdict(answer: Option<Seq<char>>) -> Option<bool> {
    match answer {
        Some(text) => verdict_of(text),
        None => None,
    }
}

pub open spec fn verdicts(answers: Seq<Option<Seq<char>>>) -> Seq<Option<bool>> {
    answers.map_values(|a: Option<Seq<char>>| answer_verdict(a))
}

/// How verdicts are written in the cache.
pub open spec fn verdict_values(verdicts: Seq<Option<bool>>) -> Seq<Option<Seq<char>>> {
    verdicts.map_values(
        |v: Option<bool>|
            match v {
                Some(b) => Some(yes_no(b)),
                None => None,
            },
    )
}

/// What verdicts in the cache say.
pub open spec fn read_verdicts(values: Seq<Option<Seq<char>>>) -> Seq<Option<bool>> {
    values.map_values(
        |v: Option<Seq<char>>|
            match v {
                Some(text) => Some(text == "yes"@),
                None => None,
            },
    )
}

/// The verdicts that some questions come to, once the model has answered.
pub open spec fn agreed_verdicts(
    c: Contents,
    keys: Seq<KeyView>,
    said: Seq<Option<bool>>,
) -> Seq<Option<bool>> {
    read_verdicts(agreed(c, keys, verdict_values(said)))
}

/// One verify stage: the condition, and the model that judges it.
#[derive(Debug)]
pub struct Verifier {
    condition: String,
    prompt: String,
    chunked_prompt: String,
    model_id: ModelId,
}

/// A row that needs a model call, and the input that is sent for it.
#[derive(Debug)]
pub struct PendingVerdict {
    pub row: usize,
    pub input: String,
}

/// The first step of a batch: what the cache settles, and what to ask.
#[derive(Debug)]
pub struct VerifyPlan {
    pub keep: Vec<bool>,
    pub requests: Vec<CompletionRequest>,
    pub pending: Vec<PendingVerdict>,
    pub cache_hits: usize,
}

/// The second step of a batch: which rows stay.
#[derive(Debug)]
pub struct VerifyOutcome {
    pub keep: Vec<bool>,
    pub rows_dropped: usize,
}

impl VerifyPlan {
    /// The pending rows.
    pub open spec fn rows(&self) -> Seq<int> {
        self.pending@.map_values(|p: PendingVerdict| p.row as int)
    }

    /// The inputs that are sent for them.
    pub open spec fn inputs(&self) -> Seq<Seq<char>> {
        self.pending@.map_values(|p: PendingVerdict| p.input@)
    }

    /// Every pending row is a row of the batch.
    pub open spec fn well_formed(&self) -> bool {
        forall|j: int| 0 <= j < self.pending.len() ==> (#[trigger] self.pending[j]).row
            < self.keep.len()
    }
}

/// The rows that stay once the pending ones have their verdicts.
pub open spec fn settled(keep: Seq<bool>, rows: Seq<int>, verdicts: Seq<Option<bool>>) -> Seq<bool>
    decreases verdicts.len(),
{
    if verdicts.len() == 0 {
        keep
    } else {
        let before = settled(keep, rows.drop_last(), verdicts.drop_last());
        match verdicts.last() {
            Some(v) => before.update(rows.last(), v),
            None => before,
        }
    }
}

impl Verifier {
    pub closed spec fn condition_text(&self) -> Seq<char> {
        self.condition@
    }

    pub closed spec fn model(&self) -> Seq<char> {
        self.model_id@
    }

    #[verifier::type_invariant]
    closed spec fn prompts_match(self) -> bool {
        self.prompt@ == means_prompt(self.condition@) && self.chunked_prompt@
            == means_prompt_chunked(self.condition@)
    }

    pub fn new(condition: &str, model_id: &ModelId) -> (r: Verifier)
        ensures
            r.condition_text() == condition@,
            r.model() == model_id@,
    {
        Verifier {
            condition: condition.to_owned(),
            prompt: synthesize_means_prompt(condition),
            chunked_prompt: synthesize_means_prompt_chunked(condition),
            model_id: model_id.copy(),
        }
    }

    /// The provenance of a verdict on an input.
    pub open spec fn key(&self, input: Seq<char>) -> KeyView {
        means_key(self.condition_text(), input, self.model(), MEANS_PROMPT_VERSION@)
    }

    /// What the model reads of a document: its best chunks where the index
    /// gave evidence for it, else its full text.
    pub open spec fn sent(text: Seq<char>, evidence: Map<u64, Seq<Seq<char>>>) -> Seq<char> {
        if evidence.contains_key(hash_of(text)) {
            joined(evidence[hash_of(text)], CHUNK_SEPARATOR@)
        } else {
            text
        }
    }

    /// The request for a document.
    pub open spec fn request(&self, text: Seq<char>, evidence: Map<u64, Seq<Seq<char>>>) -> RequestView {
        RequestView {
            system: if evidence.contains_key(hash_of(text)) {
                means_prompt_chunked(self.condition_text())
            } else {
                means_prompt(self.condition_text())
            },
            input: Self::sent(text, evidence),
            max_tokens: 8,
            schema: None,
        }
    }

    /// What is asked of each row: nothing of a NULL.
    pub open spec fn keys(
        &self,
        texts: Seq<Option<Seq<char>>>,
        evidence: Map<u64, Seq<Seq<char>>>,
    ) -> Seq<Option<KeyView>> {
        texts.map_values(
            |t: Option<Seq<char>>|
                match t {
                    Some(t) => Some(self.key(Self::sent(t, evidence))),
                    None => None,
                },
        )
    }

    fn cache_key(&self, input: &str) -> (r: CacheKey)
        ensures
            r@ == self.key(input@),
    {
        means_cache_key(self.condition.as_str(), input, &self.model_id, MEANS_PROMPT_VERSION)
    }

    /// Plans one batch. NULL text rows never match and never reach the model;
    /// cached rows never reach it either, for the first evaluation wins. With
    /// index evidence the model reads the document's best chunks; without (no
    /// index, or an unindexed passthrough row), the full text. The cache keys
    /// the input actually sent, so the two kinds of verdict never collide.
    pub fn plan_batch<C: SemanticCache>(
        &self,
        texts: &Vec<Option<String>>,
        evidence: &ChunkEvidence,
        cache: &C,
    ) -> (r: VerifyPlan)
        ensures
            ({
                let keys = self.keys(opt_views(texts@), evidence.chunks());
                let c = cache.contents();
                &&& r.well_formed()
                &&& r.keep.len() == texts.len()
                &&& forall|i: int|
                    0 <= i < texts.len() ==> #[trigger] r.keep[i] == (keys[i] is Some && known(
                        c,
                        keys[i]->0,
                    ) == Some("yes"@))
                &&& r.rows() == misses(keys, c)
                &&& r.requests.len() == r.pending.len()
                &&& forall|j: int|
                    0 <= j < r.pending.len() ==> {
                        let text = opt_views(texts@)[(#[trigger] r.pending[j]).row as int]->0;
                        r.pending[j].input@ == Self::sent(text, evidence.chunks())
                            && r.requests[j]@ == self.request(text, evidence.chunks())
                    }
                &&& forall|j: int|
                    0 <= j < r.requests.len() ==> exists|i: int|
                        0 <= i && i + self.condition_text().len() <= (
                        #[trigger] r.requests[j]).system@.len()
                            && #[trigger] r.requests[j].system@.subrange(
                            i,
                            i + self.condition_text().len(),
                        ) == self.condition_text()
                &&& r.cache_hits == hits(keys, c)
            }),
    {
        proof {
            use_type_invariant(self);
        }
        let mut keep: Vec<bool> = Vec::new();
        let mut requests: Vec<CompletionRequest> = Vec::new();
        let mut pending: Vec<PendingVerdict> = Vec::new();
        let mut cache_hits: usize = 0;
        let ghost col = opt_views(texts@);
        let ghost ev = evidence.chunks();
        let ghost keys = self.keys(col, ev);
        let ghost c = cache.contents();
        let ghost row_of = |p: PendingVerdict| p.row as int;
        let mut row: usize = 0;
        assert(pending@.map_values(row_of) == misses(keys.take(0), c));
        while row < texts.len()
            invariant
                row <= texts.len(),
                self.prompt@ == means_prompt(self.condition_text()),
                self.chunked_prompt@ == means_prompt_chunked(self.condition_text()),
                col == opt_views(texts@),
                ev == evidence.chunks(),
                keys == self.keys(col, ev),
                c == cache.contents(),
                row_of == (|p: PendingVerdict| p.row as int),
                keep.len() == row,
                forall|i: int|
                    0 <= i < row ==> #[trigger] keep[i] == (keys[i] is Some && known(c, keys[i]->0)
                        == Some("yes"@)),
                pending@.map_values(row_of) == misses(keys.take(row as int), c),
                requests.len() == pending.len(),
                forall|j: int|
                    0 <= j < pending.len() ==> {
                        let text = col[(#[trigger] pending[j]).row as int]->0;
                        pending[j].row < row && pending[j].input@ == Self::sent(text, ev)
                            && requests[j]@ == self.request(text, ev)
                    },
                cache_hits == hits(keys.take(row as int), c),
                cache_hits <= row,
            decreases texts.len() - row,
        {
            assert(keys.take(row + 1).drop_last() == keys.take(row as int));
            assert(keys.take(row + 1).last() == keys[row as int]);
            let mut keep_row: bool = false;
            match &texts[row] {
                None => {},
                Some(text) => {
                    let chunked: bool;
                    let input: String = match evidence.chunks_for(doc_hash(text.as_str())) {
                        Some(chunks) => {
                            chunked = true;
                            join(chunks, CHUNK_SEPARATOR)
                        },
                        None => {
                            chunked = false;
                            text.clone()
                        },
                    };
                    assert(col[row as int] == Some(text@));
                    assert(input@ == Self::sent(text@, ev));
                    let key = self.cache_key(input.as_str());
                    assert(keys[row as int] == Some(key@));
                    match lookup(cache, &key) {
                        Some(verdict) => {
                            cache_hits = cache_hits + 1;
                            keep_row = verdict == "yes".to_owned();
                        },
                        None => {
                            let ghost before = pending@.map_values(row_of);
                            requests.push(
                                CompletionRequest {
                                    system: if chunked {
                                        self.chunked_prompt.clone()
                                    } else {
                                        self.prompt.clone()
                                    },
                                    input: input.clone(),
                                    max_tokens: 8,
                                    schema: None,
                                },
                            );
                            pending.push(PendingVerdict { row, input });
                            assert(pending@.map_values(row_of) == before.push(row as int));
                        },
                    }
                },
            }
            keep.push(keep_row);
            row += 1;
        }
        assert(keys.take(row as int) == keys);
        proof {
            prompts_state_the_condition(self.condition_text());
            assert forall|j: int| 0 <= j < requests.len() implies exists|i: int|
                0 <= i && i + self.condition_text().len() <= (#[trigger] requests[j]).system@.len()
                    && #[trigger] requests[j].system@.subrange(
                    i,
                    i + self.condition_text().len(),
                ) == self.condition_text() by {
                let text = col[pending[j].row as int]->0;
                assert(requests[j]@ == self.request(text, ev));
                assert(requests[j].system@ == requests[j]@.system);
            }
        }
        VerifyPlan { keep, requests, pending, cache_hits }
    }

    /// Settles a planned batch with the model's answers. Only successful
    /// verdicts are cached: a transient model failure must not permanently
    /// exclude a row. A row that failed is excluded and counted, and does not
    /// fail the query. Where one batch asks the same twice, the first verdict
    /// stands for both.
    pub fn apply<C: SemanticCache>(&self, plan: VerifyPlan, answers: &Vec<Answer>, cache: &mut C) -> (r:
        VerifyOutcome)
        requires
            plan.well_formed(),
            answers.len() == plan.pending.len(),
        ensures
            ({
                let said = verdicts(answer_texts(answers@));
                let keys = plan.inputs().map_values(|input: Seq<char>| self.key(input));
                let c = old(cache).contents();
                &&& r.keep@ == settled(plan.keep@, plan.rows(), agreed_verdicts(c, keys, said))
                &&& r.rows_dropped == unusable(said)
                &&& final(cache).contents() == remembered(c, keys, verdict_values(said))
            }),
    {
        let VerifyPlan { keep, requests, pending, cache_hits } = plan;
        let mut keep = keep;
        let mut rows_dropped: usize = 0;
        let ghost said = verdicts(answer_texts(answers@));
        let ghost values = verdict_values(said);
        let ghost rows = plan.rows();
        let ghost keys = plan.inputs().map_values(|input: Seq<char>| self.key(input));
        let ghost c = cache.contents();
        let ghost come_to = agreed_verdicts(c, keys, said);
        let mut j: usize = 0;
        assert(said.take(0) =~= Seq::<Option<bool>>::empty());
        assert(values.take(0) =~= Seq::<Option<Seq<char>>>::empty());
        proof {
            lemma_agreed_len(c, keys, values);
        }
        while j < pending.len()
            invariant
                j <= pending.len() == answers.len(),
                plan.pending == pending,
                plan.well_formed(),
                keep.len() == plan.keep.len(),
                said == verdicts(answer_texts(answers@)),
                values == verdict_values(said),
                rows == plan.rows(),
                keys == plan.inputs().map_values(|input: Seq<char>| self.key(input)),
                come_to == agreed_verdicts(c, keys, said),
                come_to.len() == said.len() == pending.len(),
                keep@ == settled(plan.keep@, rows.take(j as int), come_to.take(j as int)),
                rows_dropped == unusable(said.take(j as int)),
                rows_dropped <= j,
                cache.contents() == remembered(c, keys.take(j as int), values.take(j as int)),
            decreases pending.len() - j,
        {
            assert(said.take(j + 1).drop_last() == said.take(j as int));
            assert(values.take(j + 1).drop_last() == values.take(j as int));
            assert(rows.take(j + 1).drop_last() == rows.take(j as int));
            assert(keys.take(j + 1).drop_last() == keys.take(j as int));
            assert(rows[j as int] == pending[j as int].row as int);
            assert(keys[j as int] == self.key(pending[j as int].input@));
            assert(said[j as int] == answer_verdict(answer_text(answers[j as int])));
            let verdict: Option<bool> = match &answers[j] {
                Ok(completion) => parse_verdict(completion.text.as_str()),
                Err(_) => None,
            };
            assert(come_to.take(j + 1).drop_last() == come_to.take(j as int));
            proof {
                lemma_agreed_prefix(c, keys, values, j as int);
            }
            match verdict {
                Some(matched) => {
                    let key = self.cache_key(pending[j].input.as_str());
                    let kept = keep_first(cache, key, verdict_text(matched));
                    keep.set(pending[j].row, kept == "yes".to_owned());
                },
                None => {
                    rows_dropped = rows_dropped + 1;
                },
            }
            j += 1;
        }
        assert(come_to.take(j as int) == come_to);
        assert(said.take(j as int) == said);
        assert(values.take(j as int) == values);
        assert(rows.take(j as int) == rows);
        assert(keys.take(j as int) == keys);
        VerifyOutcome { keep, rows_dropped }
    }
}

proof fn lemma_settled_len(keep: Seq<bool>, rows: Seq<int>, said: Seq<Option<bool>>)
    requires
        rows.len() == said.len(),
        forall|j: int| 0 <= j < rows.len() ==> 0 <= #[trigger] rows[j] < keep.len(),
    ensures
        settled(keep, rows, said).len() == keep.len(),
    decreases said.len(),
{
    if said.len() > 0 {
        let rs = rows.drop_last();
        assert forall|j: int| 0 <= j < rs.len() implies 0 <= #[trigger] rs[j] < keep.len() by {
            assert(rs[j] == rows[j]);
        }
        lemma_settled_len(keep, rs, said.drop_last());
    }
}

/// Where the pending rows are distinct, each takes its own verdict, a row
/// without a usable one stays as it was, and so does every other row.
pub proof fn each_row_takes_its_own_verdict(
    keep: Seq<bool>,
    rows: Seq<int>,
    said: Seq<Option<bool>>,
    row: int,
)
    requires
        rows.len() == said.len(),
        0 <= row < keep.len(),
        forall|a: int, b: int| 0 <= a < b < rows.len() ==> rows[a] < rows[b],
        forall|j: int| 0 <= j < rows.len() ==> 0 <= #[trigger] rows[j] < keep.len(),
    ensures
        forall|j: int|
            0 <= j < rows.len() && #[trigger] rows[j] == row ==> settled(keep, rows, said)[row] == (
            match said[j] {
                Some(v) => v,
                None => keep[row],
            }),
        !rows.contains(row) ==> settled(keep, rows, said)[row] == keep[row],
    decreases said.len(),
{
    if said.len() > 0 {
        let rs = rows.drop_last();
        let vs = said.drop_last();
        let n = rows.len() - 1;
        assert forall|j: int| 0 <= j < rs.len() implies 0 <= #[trigger] rs[j] < keep.len() by {
            assert(rs[j] == rows[j]);
        }
        each_row_takes_its_own_verdict(keep, rs, vs, row);
        lemma_settled_len(keep, rs, vs);
        assert forall|j: int| 0 <= j < rows.len() && #[trigger] rows[j] == row implies settled(
            keep,
            rows,
            said,
        )[row] == (match said[j] {
            Some(v) => v,
            None => keep[row],
        }) by {
            if j < n {
                assert(rs[j] == row);
                assert(rows[j] < rows[n]);
            } else {
                if rs.contains(row) {
                    let k = choose|k: int| 0 <= k < rs.len() && rs[k] == row;
                    assert(rows[k] < rows[n]);
                }
            }
        }
        if !rows.contains(row) {
            assert(rows[n] != row);
            if rs.contains(row) {
                let k = choose|k: int| 0 <= k < rs.len() && rs[k] == row;
                assert(rows[k] == row);
            }
        }
    }
}

/// The ground truth of `MEANS`, over a whole batch. With the plan that
/// [`Verifier::plan_batch`] makes and the verdicts that [`Verifier::apply`]
/// comes to, a row stays exactly where its text is not NULL and its verdict is
/// yes; and the verdict is the cached one where there is one, whatever the model
/// says, else the model's.
pub proof fn a_row_stays_iff_its_verdict_is_yes(
    keys: Seq<Option<KeyView>>,
    c: Contents,
    keep: Seq<bool>,
    said: Seq<Option<bool>>,
    row: int,
)
    requires
        keep.len() == keys.len(),
        forall|i: int|
            0 <= i < keys.len() ==> #[trigger] keep[i] == (keys[i] is Some && known(c, keys[i]->0)
                == Some("yes"@)),
        said.len() == misses(keys, c).len(),
        0 <= row < keys.len(),
    ensures
        keys[row] is None ==> !settled(keep, misses(keys, c), said)[row],
        keys[row] is Some && known(c, keys[row]->0) is Some ==> settled(
            keep,
            misses(keys, c),
            said,
        )[row] == (known(c, keys[row]->0) == Some("yes"@)),
        forall|j: int|
            0 <= j < said.len() && #[trigger] misses(keys, c)[j] == row ==> settled(
                keep,
                misses(keys, c),
                said,
            )[row] == (said[j] == Some(true)),
{
    misses_are_the_unanswered(keys, c);
    each_row_takes_its_own_verdict(keep, misses(keys, c), said, row);
    let m = misses(keys, c);
    if keys[row] is None || known(c, keys[row]->0) is Some {
        if m.contains(row) {
            let j = choose|j: int| 0 <= j < m.len() && m[j] == row;
            assert(keys[m[j]] is Some && known(c, keys[m[j]]->0) is None);
        }
    }
}

/// First evaluation wins, so re-running a query is deterministic even though the
/// model isn't: where every answer was usable, planning the same batch on the
/// resulting cache asks nothing and keeps the same rows.
pub proof fn a_rerun_keeps_the_same_rows(
    keys: Seq<Option<KeyView>>,
    c: Contents,
    keep: Seq<bool>,
    said: Seq<Option<bool>>,
    row: int,
)
    requires
        keep.len() == keys.len(),
        forall|i: int|
            0 <= i < keys.len() ==> #[trigger] keep[i] == (keys[i] is Some && known(c, keys[i]->0)
                == Some("yes"@)),
        said.len() == misses(keys, c).len(),
        unusable(said) == 0,
        0 <= row < keys.len(),
    ensures
        ({
            let after = remembered(c, missed_keys(keys, c), verdict_values(said));
            let come_to = agreed_verdicts(c, missed_keys(keys, c), said);
            &&& misses(keys, after).len() == 0
            &&& settled(keep, misses(keys, c), come_to)[row] == (keys[row] is Some && known(
                after,
                keys[row]->0,
            ) == Some("yes"@))
        }),
{
    let asked = missed_keys(keys, c);
    let values = verdict_values(said);
    let after = remembered(c, asked, values);
    let come_to = agreed_verdicts(c, asked, said);
    let m = misses(keys, c);
    lemma_none_unusable(said);
    lemma_agreed_len(c, asked, values);
    assert forall|j: int| 0 <= j < values.len() implies #[trigger] values[j] is Some by {
        assert(said[j] is Some);
    }
    lemma_all_usable(values);
    a_rerun_misses_nothing(keys, c, values);
    misses_are_the_unanswered(keys, c);
    a_row_stays_iff_its_verdict_is_yes(keys, c, keep, come_to, row);
    if keys[row] is Some {
        if known(c, keys[row]->0) is Some {
            answers_stay_answered(c, asked, values, keys[row]->0);
        } else {
            assert(m.contains(row));
            let j = choose|j: int| 0 <= j < m.len() && m[j] == row;
            usable_values_are_cached(c, asked, values, j);
            assert(asked[j] == keys[row]->0);
            assert(values[j] is Some);
            assert(come_to[j] == Some(known(after, keys[row]->0)->0 == "yes"@));
        }
    }
}

/// What the model is asked about a document, in terms of what it is told: the
/// condition stands in the instruction, word for word; the text under scrutiny is
/// the document itself or, where the index gave evidence for it, holds each of its
/// chunks.
pub proof fn a_request_holds_the_condition_and_the_text(
    v: Verifier,
    text: Seq<char>,
    evidence: Map<u64, Seq<Seq<char>>>,
)
    ensures
        ({
            let asked = v.request(text, evidence);
            &&& occurs_in(v.condition_text(), asked.system)
            &&& !evidence.contains_key(hash_of(text)) ==> asked.input == text
            &&& evidence.contains_key(hash_of(text)) ==> forall|k: int|
                0 <= k < evidence[hash_of(text)].len() ==> occurs_in(
                    #[trigger] evidence[hash_of(text)][k],
                    asked.input,
                )
            &&& asked.max_tokens > 0
            &&& asked.schema is None
        }),
{
    prompts_state_the_condition(v.condition_text());
    if evidence.contains_key(hash_of(text)) {
        let parts = evidence[hash_of(text)];
        assert forall|k: int| 0 <= k < parts.len() implies occurs_in(
            #[trigger] parts[k],
            v.request(text, evidence).input,
        ) by {
            joining_keeps_every_part(parts, CHUNK_SEPARATOR@, k);
        }
    }
}

/// Two stages that judge different conditions never send the same instruction,
/// whatever the documents: no request of one plan is a request of the other.
pub proof fn plans_tell_conditions_apart(
    a: Verifier,
    b: Verifier,
    text_a: Seq<char>,
    text_b: Seq<char>,
    evidence_a: Map<u64, Seq<Seq<char>>>,
    evidence_b: Map<u64, Seq<Seq<char>>>,
    plan_a: VerifyPlan,
    plan_b: VerifyPlan,
    i: int,
    j: int,
)
    requires
        0 <= i < plan_a.requests.len(),
        0 <= j < plan_b.requests.len(),
        plan_a.requests[i]@ == a.request(text_a, evidence_a),
        plan_b.requests[j]@ == b.request(text_b, evidence_b),
        a.condition_text() != b.condition_text(),
    ensures
        plan_a.requests[i].system@ != plan_b.requests[j].system@,
{
    prompts_tell_conditions_apart(a.condition_text(), b.condition_text());
    prompts_tell_conditions_apart(b.condition_text(), a.condition_text());
    assert(plan_a.requests[i].system@ == plan_a.requests[i]@.system);
    assert(plan_b.requests[j].system@ == plan_b.requests[j]@.system);
}

/// A verdict answers one question: another condition, another model, another
/// prompt scheme or an input of another hash has another key, so that a verdict
/// under one is never read for the other.
pub proof fn a_verdict_answers_one_question(
    condition_a: Seq<char>,
    condition_b: Seq<char>,
    input_a: Seq<char>,
    input_b: Seq<char>,
    model_a: Seq<char>,
    model_b: Seq<char>,
    version_a: Seq<char>,
    version_b: Seq<char>,
    c: Contents,
    value: Seq<char>,
)
    requires
        condition_a != condition_b || input_hash(input_a) != input_hash(input_b) || model_a
            != model_b || version_a != version_b,
    ensures
        ({
            let a = means_key(condition_a, input_a, model_a, version_a);
            let b = means_key(condition_b, input_b, model_b, version_b);
            &&& a != b
            &&& known(first_kept(c, a, value), b) == known(c, b)
        }),
{
    let a = means_key(condition_a, input_a, model_a, version_a);
    let b = means_key(condition_b, input_b, model_b, version_b);
    assert(a.type_version == condition_a && b.type_version == condition_b);
    assert(a.model_id == model_a && b.model_id == model_b);
}

/// An answer is its one word, whatever stands round it: in any case, inside any
/// punctuation, inside any white space, `yes` is read as a yes and `no` as a no.
pub proof fn one_word_is_a_verdict(
    outer_lead: Seq<char>,
    inner_lead: Seq<char>,
    word: Seq<char>,
    inner_trail: Seq<char>,
    outer_trail: Seq<char>,
)
    requires
        forall|i: int| 0 <= i < outer_lead.len() ==> is_space(#[trigger] outer_lead[i]),
        forall|i: int| 0 <= i < outer_trail.len() ==> is_space(#[trigger] outer_trail[i]),
        forall|i: int| 0 <= i < inner_lead.len() ==> is_punctuation(#[trigger] inner_lead[i]),
        forall|i: int| 0 <= i < inner_trail.len() ==> is_punctuation(#[trigger] inner_trail[i]),
    ensures
        ({
            let text = outer_lead + (inner_lead + word + inner_trail) + outer_trail;
            &&& lowered(word) == "yes"@ ==> verdict_of(text) == Some(true)
            &&& lowered(word) == "no"@ ==> verdict_of(text) == Some(false)
        }),
{
    reveal_strlit("yes");
    reveal_strlit("no");
    let text = outer_lead + (inner_lead + word + inner_trail) + outer_trail;
    if lowered(word) == "yes"@ || lowered(word) == "no"@ {
        let low = lowered(word);
        assert(word.len() == low.len() > 0);
        assert(low[0] == 'y' || low[0] == 'n');
        assert(low.last() == 's' || low.last() == 'o');
        assert(word[0] == 'y' || word[0] == 'Y' || word[0] == 'n' || word[0] == 'N');
        assert(low.last() == low[low.len() - 1]);
        assert(word.last() == 's' || word.last() == 'S' || word.last() == 'o' || word.last()
            == 'O');
        let inner = inner_lead + word + inner_trail;
        if inner_lead.len() > 0 {
            assert(inner[0] == inner_lead[0]);
        } else {
            assert(inner[0] == word[0]);
        }
        if inner_trail.len() > 0 {
            assert(inner.last() == inner_trail[inner_trail.len() - 1]);
        } else {
            assert(inner.last() == word.last());
        }
        trimming_leaves_the_core(outer_lead, inner, outer_trail, Class::Space);
        trimming_leaves_the_core(inner_lead, word, inner_trail, Class::Punctuation);
        assert(lowered("yes"@) =~= "yes"@);
        assert(lowered("no"@) =~= "no"@);
        assert(lowered("no"@).len() == 2 && lowered("yes"@).len() == 3);
    }
}

/// A verdict was said: an answer that is read as a yes has the word in it, and so
/// has one that is read as a no.
pub proof fn a_verdict_was_said(text: Seq<char>)
    ensures
        verdict_of(text) == Some(true) ==> exists|word: Seq<char>|
            lowered(word) == "yes"@ && occurs_in(word, text),
        verdict_of(text) == Some(false) ==> exists|word: Seq<char>|
            lowered(word) == "no"@ && occurs_in(word, text),
{
    let inner = trimmed(text);
    let word = trimmed_of(inner, Class::Punctuation);
    what_is_trimmed_stands_in_the_text(text, Class::Space);
    what_is_trimmed_stands_in_the_text(inner, Class::Punctuation);
    a_part_of_a_part_is_a_part(word, inner, text);
    reveal_strlit("yes");
    reveal_strlit("no");
    assert(lowered("yes"@) =~= "yes"@);
    assert(lowered("no"@) =~= "no"@);
}

/// A question that is asked for the first time comes to what the model said: the
/// verdict that is cached and the row that stays are the model's own.
pub proof fn a_first_verdict_is_the_model_s_own(
    c: Contents,
    keys: Seq<KeyView>,
    said: Seq<Option<bool>>,
    j: int,
)
    requires
        keys.len() == said.len(),
        0 <= j < keys.len(),
        known(c, keys[j]) is None,
        forall|h: int| 0 <= h < j ==> #[trigger] keys[h] != keys[j],
    ensures
        agreed_verdicts(c, keys, said)[j] == said[j],
        said[j] == Some(true) ==> known(remembered(c, keys, verdict_values(said)), keys[j]) == Some(
            "yes"@,
        ),
        said[j] == Some(false) ==> known(remembered(c, keys, verdict_values(said)), keys[j])
            == Some("no"@),
{
    let values = verdict_values(said);
    usable_values_are_cached(c, keys, values, j);
    if said[j] is Some {
        assert(values[j] == Some(yes_no(said[j]->0)));
        the_first_usable_value_stands(c, keys, values, j);
        assert(agreed(c, keys, values)[j] == values[j]);
        cached_verdicts_read_back(said[j]->0);
    }
}

}
