//! The classify stage: `MEANS` as a label rather than a filter.
//!
//! Extends each row with one boolean per condition. Several conditions over the
//! same text become a single model call, which is why a three-branch `CASE`
//! costs what a one-branch `CASE` costs. The fusion is an optimization only:
//! each boolean answers exactly the question the verify stage would ask, and a
//! row that needs just one answer is sent the verify prompt, so it shares that
//! stage's cache entries outright.
//!
//! No index stage. A classify labels every row, so there is nothing to prune;
//! and the conditions would each want their own chunk set while the fused call
//! sends one input. The model reads the full text.

use serde_json::Value;
use vstd::prelude::*;

use crate::cache::{input_hash, known, lookup, CacheKey, Contents, KeyView, SemanticCache};
use crate::index::opt_views;
use crate::json::{
    array_value, bool_value, json_of, jsons, object_value, opt_json, set_member, text_value,
    value_bool, value_member, Json,
};
use crate::model::{answer_text, answer_texts, Answer, CompletionRequest, ModelId, RequestView};
use crate::physical::extract::{object_in, parse_json_object, saturated};
use crate::physical::verify::{
    cached_verdicts_read_back, means_cache_key, means_key, means_prompt, parse_verdict,
    prompts_state_the_condition, synthesize_means_prompt, verdict_of, verdict_text, yes_no, Verifier, MEANS_PROMPT_VERSION,
};
use crate::physical::{first_kept, keep_first};
use crate::text::{
    a_framed_text_stands_in_the_whole, a_part_of_a_part_is_a_part, decimal, decimal_is_injective,
    occurs_in, push_decimal, views,
};

verus! {

/// Version of the fused prompt, the one that asks about several conditions at
/// once. A row with a single pending condition is sent the verify prompt
/// instead and keyed with [`MEANS_PROMPT_VERSION`], so the two never share an
/// entry unless the request really is identical.
pub const CLASSIFY_PROMPT_VERSION: &'static str = "classify-v1";

/// Enough for a small JSON object of booleans.
pub const CLASSIFY_MAX_TOKENS: usize = 128;

/// The key of a condition in the fused answer.
pub open spec fn branch_key(i: nat) -> Seq<char> {
    "c"@ + decimal(i)
}

/// The key of a condition in the fused answer.
fn branch_key_of(i: usize) -> (r: String)
    ensures
        r@ == branch_key(i as nat),
{
    let mut key: String = "c".to_owned();
    push_decimal(&mut key, i as u64);
    key
}

/// One line per condition: its key and the condition.
pub open spec fn condition_lines(conditions: Seq<Seq<char>>) -> Seq<char>
    decreases conditions.len(),
{
    if conditions.len() == 0 {
        Seq::empty()
    } else {
        condition_lines(conditions.drop_last()) + branch_key((conditions.len() - 1) as nat) + ": "@
            + conditions.last() + "\n"@
    }
}

pub open spec fn classify_prompt(conditions: Seq<Seq<char>>) -> Seq<char> {
    "You are evaluating several independent predicates over one document. Judge each one on its own merits; they are not alternatives and any number of them may hold.\n\n"@
        + condition_lines(conditions)
        + "\nReply with a JSON object mapping each predicate's key to true or false, e.g. {\"c0\": true, \"c1\": false}."@
}

/// The views of some string slices.
pub open spec fn slice_views(v: Seq<&str>) -> Seq<Seq<char>> {
    v.map_values(|s: &str| s@)
}

/// The instruction the fused classify model sees. Users never write this.
pub fn synthesize_classify_prompt(conditions: &[&str]) -> (r: String)
    ensures
        r@ == classify_prompt(slice_views(conditions@)),
{
    let mut prompt: String =
        "You are evaluating several independent predicates over one document. Judge each one on its own merits; they are not alternatives and any number of them may hold.\n\n".to_owned();
    let ghost head = prompt@;
    let ghost all = slice_views(conditions@);
    let mut i: usize = 0;
    assert(head + condition_lines(all.take(0)) == head);
    while i < conditions.len()
        invariant
            i <= conditions.len(),
            all == slice_views(conditions@),
            prompt@ == head + condition_lines(all.take(i as int)),
        decreases conditions.len() - i,
    {
        let ghost before = prompt@;
        let key = branch_key_of(i);
        prompt.append(key.as_str());
        prompt.append(": ");
        prompt.append(conditions[i]);
        prompt.append("\n");
        assert(all.take(i + 1).drop_last() == all.take(i as int));
        assert(prompt@ == head + condition_lines(all.take(i + 1)));
        i += 1;
    }
    assert(all.take(i as int) == all);
    prompt.append(
        "\nReply with a JSON object mapping each predicate's key to true or false, e.g. {\"c0\": true, \"c1\": false}.",
    );
    prompt
}

/// The schema of a JSON boolean.
pub open spec fn boolean_schema() -> Json {
    Json::Object(Map::empty().insert("type"@, Json::Text("boolean"@)))
}

pub open spec fn branch_properties(count: nat) -> Map<Seq<char>, Json>
    decreases count,
{
    if count == 0 {
        Map::empty()
    } else {
        branch_properties((count - 1) as nat).insert(
            branch_key((count - 1) as nat),
            boolean_schema(),
        )
    }
}

/// The schema of an object that has some members, all required, and no others.
pub open spec fn closed_object_schema(properties: Map<Seq<char>, Json>, required: Seq<Seq<char>>) -> Json {
    Json::Object(
        Map::empty().insert("type"@, Json::Text("object"@)).insert(
            "properties"@,
            Json::Object(properties),
        ).insert(
            "required"@,
            Json::Array(required.map_values(|s: Seq<char>| Json::Text(s))),
        ).insert("additionalProperties"@, Json::Bool(false)),
    )
}

/// The schema of an object that has some members, all required, and no others.
pub(crate) fn closed_object(properties: Value, required: &Vec<String>) -> (r: Value)
    requires
        json_of(properties) is Object,
    ensures
        json_of(r) == closed_object_schema(json_of(properties)->Object_0, views(required@)),
{
    let mut names: Vec<Value> = Vec::new();
    let ghost all = views(required@);
    let mut i: usize = 0;
    while i < required.len()
        invariant
            i <= required.len(),
            all == views(required@),
            jsons(names@) == all.take(i as int).map_values(|s: Seq<char>| Json::Text(s)),
        decreases required.len() - i,
    {
        let ghost before = jsons(names@);
        names.push(text_value(required[i].clone()));
        assert(jsons(names@) == before.push(Json::Text(all[i as int])));
        i += 1;
    }
    assert(all.take(i as int) == all);
    let mut schema = object_value();
    set_member(&mut schema, "type", text_value("object".to_owned()));
    set_member(&mut schema, "properties", properties);
    set_member(&mut schema, "required", array_value(names));
    set_member(&mut schema, "additionalProperties", bool_value(false));
    schema
}

/// The schema of a property that has a plain type.
pub(crate) fn plain_property(name: &str) -> (r: Value)
    ensures
        json_of(r) == Json::Object(Map::empty().insert("type"@, Json::Text(name@))),
{
    let mut schema = object_value();
    set_member(&mut schema, "type", text_value(name.to_owned()));
    schema
}

/// The JSON schema the fused answer is decoded under: one boolean per pending
/// condition, nothing else allowed.
pub open spec fn fused_schema(count: nat) -> Json {
    closed_object_schema(branch_properties(count), Seq::new(count, |i: int| branch_key(i as nat)))
}

/// The JSON schema the fused answer is decoded under: one boolean per pending
/// condition, nothing else allowed.
pub fn classify_schema(count: usize) -> (r: Value)
    ensures
        json_of(r) == fused_schema(count as nat),
{
    let mut properties = object_value();
    let mut required: Vec<String> = Vec::new();
    let mut i: usize = 0;
    while i < count
        invariant
            i <= count,
            json_of(properties) == Json::Object(branch_properties(i as nat)),
            views(required@) == Seq::new(i as nat, |k: int| branch_key(k as nat)),
        decreases count - i,
    {
        let key = branch_key_of(i);
        set_member(&mut properties, key.as_str(), plain_property("boolean"));
        let ghost before = views(required@);
        required.push(key);
        assert(views(required@) == before.push(branch_key(i as nat)));
        i += 1;
        assert(Seq::new(i as nat, |k: int| branch_key(k as nat)) == Seq::new(
            (i - 1) as nat,
            |k: int| branch_key(k as nat),
        ).push(branch_key((i - 1) as nat)));
    }
    closed_object(properties, &required)
}

/// A guard admits a row only when it is definitely true.
pub open spec fn admits(guard: Option<Seq<Option<bool>>>, row: int) -> bool {
    match guard {
        None => true,
        Some(guard) => guard[row] == Some(true),
    }
}

/// A guard, as a view.
pub open spec fn guard_view(guard: Option<&Vec<Option<bool>>>) -> Option<Seq<Option<bool>>> {
    match guard {
        Some(g) => Some(g@),
        None => None,
    }
}

/// A guard admits a row only when it is definitely true: NULL means an earlier
/// branch's condition was unknown, which no `CASE` treats as a match.
pub fn guard_allows(guard: Option<&Vec<Option<bool>>>, row: usize) -> (r: bool)
    requires
        guard is Some ==> row < guard->0.len(),
    ensures
        r == admits(guard_view(guard), row as int),
{
    match guard {
        None => true,
        Some(guard) => match guard[row] {
            Some(b) => b,
            None => false,
        },
    }
}

/// One classify stage: its conditions, and the model that judges them.
#[derive(Debug)]
pub struct Classifier {
    pub conditions: Vec<String>,
    pub model_id: ModelId,
}

/// A row that needs a model call, and which conditions it still lacks.
#[derive(Debug)]
pub struct PendingRow {
    pub row: usize,
    pub text: String,
    pub pending: Vec<usize>,
}

/// What a [`PendingRow`] stands for.
pub struct PendingView {
    pub row: int,
    pub text: Seq<char>,
    pub pending: Seq<int>,
}

impl View for PendingRow {
    type V = PendingView;

    open spec fn view(&self) -> PendingView {
        PendingView {
            row: self.row as int,
            text: self.text@,
            pending: self.pending@.map_values(|b: usize| b as int),
        }
    }
}

pub open spec fn pending_views(pending: Seq<PendingRow>) -> Seq<PendingView> {
    pending.map_values(|p: PendingRow| p@)
}

/// The first step of a batch: what needs no model, and what to ask.
#[derive(Debug)]
pub struct ClassifyPlan {
    pub rows: usize,
    /// One column per condition, of one verdict per row; `None` is NULL.
    pub verdicts: Vec<Vec<Option<bool>>>,
    pub requests: Vec<CompletionRequest>,
    pub pending: Vec<PendingRow>,
    pub rows_gated: usize,
    pub cache_hits: usize,
}

/// The second step of a batch: the verdicts.
#[derive(Debug)]
pub struct ClassifyOutcome {
    pub verdicts: Vec<Vec<Option<bool>>>,
    pub rows_failed: usize,
    pub branches_failed: usize,
}

/// The verdicts, as views.
pub open spec fn grid(verdicts: Seq<Vec<Option<bool>>>) -> Seq<Seq<Option<bool>>> {
    verdicts.map_values(|v: Vec<Option<bool>>| v@)
}

/// Where a batch stands while its answers are applied.
pub struct ClassifyState {
    pub verdicts: Seq<Seq<Option<bool>>>,
    pub cache: Contents,
    pub rows_failed: nat,
    pub branches_failed: nat,
}

impl Classifier {
    /// The prompt version of a request about so many conditions, which decides
    /// the provenance its verdicts are keyed under.
    pub open spec fn version(asked: nat) -> Seq<char> {
        if asked == 1 {
            MEANS_PROMPT_VERSION@
        } else {
            CLASSIFY_PROMPT_VERSION@
        }
    }

    pub open spec fn key(&self, branch: int, text: Seq<char>, asked: nat) -> KeyView {
        means_key(self.conditions[branch]@, text, self.model_id@, Self::version(asked))
    }

    /// The verdict that the cache holds: under the entry this request would
    /// write first, then under the verify stage's.
    pub open spec fn cached_verdict(&self, branch: int, text: Seq<char>, c: Contents) -> Option<bool> {
        match known(c, self.key(branch, text, self.conditions@.len())) {
            Some(v) => Some(v == "yes"@),
            None => match known(c, self.key(branch, text, 1)) {
                Some(v) => Some(v == "yes"@),
                None => None,
            },
        }
    }

    /// A row is asked about unless the guard excludes it or its text is NULL.
    pub open spec fn asks(
        text: Option<Seq<char>>,
        guard: Option<Seq<Option<bool>>>,
        row: int,
    ) -> bool {
        admits(guard, row) && text is Some
    }

    /// The verdict of a condition on a row before the model is asked: `false`
    /// where the row is not asked about, else what the cache holds.
    pub open spec fn first_verdict(
        &self,
        branch: int,
        text: Option<Seq<char>>,
        guard: Option<Seq<Option<bool>>>,
        row: int,
        c: Contents,
    ) -> Option<bool> {
        if Self::asks(text, guard, row) {
            self.cached_verdict(branch, text->0, c)
        } else {
            Some(false)
        }
    }

    /// The conditions among the first `n` that the cache does not answer.
    pub open spec fn open_branches(&self, n: nat, text: Seq<char>, c: Contents) -> Seq<int>
        decreases n,
    {
        if n == 0 {
            Seq::empty()
        } else {
            let before = self.open_branches((n - 1) as nat, text, c);
            if self.cached_verdict(n - 1, text, c) is None {
                before.push(n - 1)
            } else {
                before
            }
        }
    }

    /// The rows that need a model call.
    pub open spec fn planned_rows(
        &self,
        texts: Seq<Option<Seq<char>>>,
        guard: Option<Seq<Option<bool>>>,
        c: Contents,
    ) -> Seq<PendingView>
        decreases texts.len(),
    {
        if texts.len() == 0 {
            Seq::empty()
        } else {
            let row = texts.len() - 1;
            let before = self.planned_rows(texts.drop_last(), guard, c);
            if Self::asks(texts.last(), guard, row) {
                let pending = self.open_branches(self.conditions@.len(), texts.last()->0, c);
                if pending.len() == 0 {
                    before
                } else {
                    before.push(PendingView { row, text: texts.last()->0, pending })
                }
            } else {
                before
            }
        }
    }

    /// How many rows the guard excludes.
    pub open spec fn gated(rows: nat, guard: Option<Seq<Option<bool>>>) -> nat
        decreases rows,
    {
        if rows == 0 {
            0
        } else {
            Self::gated((rows - 1) as nat, guard) + if admits(guard, rows - 1) {
                0nat
            } else {
                1nat
            }
        }
    }

    /// How many verdicts the cache gives.
    pub open spec fn planned_hits(
        &self,
        texts: Seq<Option<Seq<char>>>,
        guard: Option<Seq<Option<bool>>>,
        c: Contents,
    ) -> nat
        decreases texts.len(),
    {
        if texts.len() == 0 {
            0
        } else {
            let row = texts.len() - 1;
            self.planned_hits(texts.drop_last(), guard, c) + if Self::asks(
                texts.last(),
                guard,
                row,
            ) {
                (self.conditions@.len() - self.open_branches(
                    self.conditions@.len(),
                    texts.last()->0,
                    c,
                ).len()) as nat
            } else {
                0
            }
        }
    }

    /// The request for a row's pending conditions.
    pub open spec fn request_view(&self, text: Seq<char>, pending: Seq<int>) -> RequestView {
        if pending.len() == 1 {
            RequestView {
                system: means_prompt(self.conditions[pending[0]]@),
                input: text,
                max_tokens: 8,
                schema: None,
            }
        } else {
            RequestView {
                system: classify_prompt(pending.map_values(|b: int| self.conditions[b]@)),
                input: text,
                max_tokens: CLASSIFY_MAX_TOKENS as nat,
                schema: Some(fused_schema(pending.len())),
            }
        }
    }

    fn cache_key(&self, branch: usize, text: &str, asked: usize) -> (r: CacheKey)
        requires
            branch < self.conditions.len(),
        ensures
            r@ == self.key(branch as int, text@, asked as nat),
    {
        let prompt_version = if asked == 1 {
            MEANS_PROMPT_VERSION
        } else {
            CLASSIFY_PROMPT_VERSION
        };
        means_cache_key(self.conditions[branch].as_str(), text, &self.model_id, prompt_version)
    }

    /// The cached verdict of a condition on a text. The entry this request would
    /// write is tried first, then the verify stage's: a one-condition classify
    /// and a `WHERE ... MEANS` produce the same key, so either can satisfy the
    /// other.
    pub fn cached<C: SemanticCache>(&self, branch: usize, text: &str, cache: &C) -> (r: Option<bool>)
        requires
            branch < self.conditions.len(),
        ensures
            r == self.cached_verdict(branch as int, text@, cache.contents()),
    {
        let own = self.cache_key(branch, text, self.conditions.len());
        match lookup(cache, &own) {
            Some(v) => Some(v == "yes".to_owned()),
            None => {
                let verify = self.cache_key(branch, text, 1);
                match lookup(cache, &verify) {
                    Some(v) => Some(v == "yes".to_owned()),
                    None => None,
                }
            },
        }
    }

    /// One request for a row's pending conditions.
    ///
    /// A single pending condition takes the verify prompt as it is, with the
    /// same schemaless yes/no answer, which is what lets its verdict share a
    /// cache entry with a `WHERE ... MEANS` over the same text. Two or more take
    /// the fused prompt and a JSON schema.
    pub fn request(&self, text: &str, pending: &Vec<usize>) -> (r: CompletionRequest)
        requires
            forall|k: int| 0 <= k < pending.len() ==> #[trigger] pending[k] < self.conditions.len(),
        ensures
            r@ == self.request_view(text@, pending@.map_values(|b: usize| b as int)),
    {
        if pending.len() == 1 {
            return CompletionRequest {
                system: synthesize_means_prompt(self.conditions[pending[0]].as_str()),
                input: text.to_owned(),
                max_tokens: 8,
                schema: None,
            };
        }
        let ghost all = pending@.map_values(|b: usize| b as int);
        let mut conditions: Vec<&str> = Vec::new();
        let mut i: usize = 0;
        while i < pending.len()
            invariant
                i <= pending.len(),
                forall|k: int|
                    0 <= k < pending.len() ==> #[trigger] pending[k] < self.conditions.len(),
                all == pending@.map_values(|b: usize| b as int),
                slice_views(conditions@) == all.take(i as int).map_values(
                    |b: int| self.conditions[b]@,
                ),
            decreases pending.len() - i,
        {
            let ghost before = slice_views(conditions@);
            conditions.push(self.conditions[pending[i]].as_str());
            assert(slice_views(conditions@) == before.push(self.conditions[all[i as int]]@));
            i += 1;
        }
        assert(all.take(i as int) == all);
        CompletionRequest {
            system: synthesize_classify_prompt(conditions.as_slice()),
            input: text.to_owned(),
            max_tokens: CLASSIFY_MAX_TOKENS,
            schema: Some(classify_schema(pending.len())),
        }
    }
}

/// The columns have one verdict per condition and row.
pub open spec fn rectangular(verdicts: Seq<Seq<Option<bool>>>, branches: nat, rows: nat) -> bool {
    verdicts.len() == branches && forall|b: int|
        0 <= b < branches ==> (#[trigger] verdicts[b]).len() == rows
}

impl ClassifyPlan {
    /// The columns are those of the stage, and the pending rows are rows of the
    /// batch that lack conditions of the stage.
    pub open spec fn fits(&self, s: &Classifier) -> bool {
        rectangular(grid(self.verdicts@), s.conditions@.len(), self.rows as nat) && forall|j: int|
            0 <= j < self.pending.len() ==> s.pending_fits(
                #[trigger] self.pending[j],
                self.rows as nat,
            )
    }
}

/// One verdict is added to the end of a column.
fn push_verdict(verdicts: &mut Vec<Vec<Option<bool>>>, branch: usize, v: Option<bool>)
    requires
        branch < old(verdicts).len(),
    ensures
        grid(final(verdicts)@) == grid(old(verdicts)@).update(
            branch as int,
            grid(old(verdicts)@)[branch as int].push(v),
        ),
{
    let ghost before = grid(verdicts@);
    let column: &mut Vec<Option<bool>> = &mut verdicts[branch];
    column.push(v);
    assert(grid(verdicts@) == before.update(branch as int, before[branch as int].push(v)));
}

/// One verdict is replaced.
fn set_verdict(verdicts: &mut Vec<Vec<Option<bool>>>, branch: usize, row: usize, v: Option<bool>)
    requires
        branch < old(verdicts).len(),
        row < old(verdicts)[branch as int].len(),
    ensures
        grid(final(verdicts)@) == with_verdict(grid(old(verdicts)@), branch as int, row as int, v),
{
    let ghost before = grid(verdicts@);
    let column: &mut Vec<Option<bool>> = &mut verdicts[branch];
    column.set(row, v);
    assert(grid(verdicts@) == with_verdict(before, branch as int, row as int, v));
}

/// The columns with one verdict replaced.
pub open spec fn with_verdict(
    verdicts: Seq<Seq<Option<bool>>>,
    branch: int,
    row: int,
    v: Option<bool>,
) -> Seq<Seq<Option<bool>>> {
    verdicts.update(branch, verdicts[branch].update(row, v))
}

proof fn lemma_open_branches(s: &Classifier, n: nat, text: Seq<char>, c: Contents)
    ensures
        s.open_branches(n, text, c).len() <= n,
        forall|k: int|
            0 <= k < s.open_branches(n, text, c).len() ==> 0 <= #[trigger] s.open_branches(
                n,
                text,
                c,
            )[k] < n,
    decreases n,
{
    if n > 0 {
        lemma_open_branches(s, (n - 1) as nat, text, c);
    }
}

impl Classifier {
    pub open spec fn pending_fits(&self, p: PendingRow, rows: nat) -> bool {
        p.row < rows && forall|k: int|
            0 <= k < p.pending.len() ==> #[trigger] p.pending[k] < self.conditions.len()
    }

    /// The verdicts before the model is asked.
    pub open spec fn planned_verdicts(
        &self,
        texts: Seq<Option<Seq<char>>>,
        guard: Option<Seq<Option<bool>>>,
        c: Contents,
    ) -> Seq<Seq<Option<bool>>> {
        Seq::new(
            self.conditions@.len(),
            |b: int|
                Seq::new(
                    texts.len(),
                    |row: int| self.first_verdict(b, texts[row], guard, row, c),
                ),
        )
    }

    /// Plans one batch. A row that an earlier `CASE` branch already claimed
    /// never reaches the model, and `false` keeps it out of every branch here;
    /// a NULL text can't satisfy anything, and costs no call.
    pub fn plan_batch<C: SemanticCache>(
        &self,
        texts: &Vec<Option<String>>,
        guard: Option<&Vec<Option<bool>>>,
        cache: &C,
    ) -> (r: ClassifyPlan)
        requires
            guard is Some ==> guard->0.len() == texts.len(),
        ensures
            ({
                let col = opt_views(texts@);
                let g = guard_view(guard);
                let c = cache.contents();
                &&& r.rows == texts.len()
                &&& r.fits(self)
                &&& grid(r.verdicts@) == self.planned_verdicts(col, g, c)
                &&& pending_views(r.pending@) == self.planned_rows(col, g, c)
                &&& r.requests.len() == r.pending.len()
                &&& forall|j: int|
                    0 <= j < r.requests.len() ==> (#[trigger] r.requests[j])@ == self.request_view(
                        r.pending[j]@.text,
                        r.pending[j]@.pending,
                    )
                &&& r.rows_gated == Self::gated(texts@.len(), g)
                &&& r.cache_hits == saturated(self.planned_hits(col, g, c) as int)
            }),
    {
        let rows: usize = texts.len();
        let branches: usize = self.conditions.len();
        let ghost col = opt_views(texts@);
        let ghost g = guard_view(guard);
        let ghost c = cache.contents();
        let mut verdicts: Vec<Vec<Option<bool>>> = Vec::new();
        let mut b: usize = 0;
        while b < branches
            invariant
                b <= branches,
                rectangular(grid(verdicts@), b as nat, 0),
            decreases branches - b,
        {
            let ghost before = grid(verdicts@);
            let column: Vec<Option<bool>> = Vec::new();
            verdicts.push(column);
            assert(grid(verdicts@) == before.push(column@));
            b += 1;
        }
        let mut requests: Vec<CompletionRequest> = Vec::new();
        let mut pending: Vec<PendingRow> = Vec::new();
        let mut rows_gated: usize = 0;
        let mut cache_hits: usize = 0;
        let mut row: usize = 0;
        assert(grid(verdicts@) == self.planned_verdicts(col.take(0), g, c)) by {
            assert forall|k: int| 0 <= k < branches implies grid(verdicts@)[k]
                == #[trigger] self.planned_verdicts(col.take(0), g, c)[k] by {
                assert(grid(verdicts@)[k].len() == 0);
            }
        }
        assert(pending_views(pending@) == self.planned_rows(col.take(0), g, c));
        while row < rows
            invariant
                guard is Some ==> guard->0.len() == texts.len(),
                row <= rows == texts.len(),
                branches == self.conditions.len(),
                col == opt_views(texts@),
                g == guard_view(guard),
                c == cache.contents(),
                grid(verdicts@) == self.planned_verdicts(col.take(row as int), g, c),
                pending_views(pending@) == self.planned_rows(col.take(row as int), g, c),
                forall|j: int|
                    0 <= j < pending.len() ==> self.pending_fits(#[trigger] pending[j], rows as nat),
                requests.len() == pending.len(),
                forall|j: int|
                    0 <= j < requests.len() ==> (#[trigger] requests[j])@ == self.request_view(
                        pending[j]@.text,
                        pending[j]@.pending,
                    ),
                rows_gated == Self::gated(row as nat, g),
                rows_gated <= row,
                cache_hits == saturated(
                    self.planned_hits(col.take(row as int), g, c) as int,
                ),
            decreases rows - row,
        {
            assert(col.take(row + 1).drop_last() == col.take(row as int));
            assert(col.take(row + 1).last() == col[row as int]);
            let ghost before = grid(verdicts@);
            let admitted: bool = guard_allows(guard, row);
            if !admitted {
                rows_gated = rows_gated + 1;
            }
            let mut open: Vec<usize> = Vec::new();
            let text: Option<&String> = if admitted {
                texts[row].as_ref()
            } else {
                None
            };
            let ghost t = col[row as int];
            assert(Self::asks(t, g, row as int) == (text is Some));
            assert(text is Some ==> t == Some(text->0@));
            let mut b: usize = 0;
            assert(open@.map_values(|b: usize| b as int) =~= Seq::<int>::empty());
            while b < branches
                invariant
                    b <= branches == self.conditions.len(),
                    row < rows,
                    c == cache.contents(),
                    Self::asks(t, g, row as int) == (text is Some),
                    text is Some ==> t == Some(text->0@),
                    text is Some ==> open@.map_values(|b: usize| b as int) == self.open_branches(
                        b as nat,
                        text->0@,
                        c,
                    ),
                    text is None ==> open@.len() == 0,
                    forall|k: int| 0 <= k < open.len() ==> #[trigger] open[k] < b,
                    rectangular(before, branches as nat, row as nat),
                    grid(verdicts@).len() == branches,
                    forall|k: int|
                        0 <= k < branches ==> #[trigger] grid(verdicts@)[k] == (if k < b {
                            before[k].push(self.first_verdict(k, t, g, row as int, c))
                        } else {
                            before[k]
                        }),
                decreases branches - b,
            {
                let v: Option<bool> = match text {
                    Some(text) => {
                        let v = self.cached(b, text.as_str(), cache);
                        if v.is_none() {
                            let ghost had = open@.map_values(|b: usize| b as int);
                            open.push(b);
                            assert(open@.map_values(|b: usize| b as int) == had.push(b as int));
                        }
                        v
                    },
                    None => Some(false),
                };
                assert(v == self.first_verdict(b as int, t, g, row as int, c));
                assert(grid(verdicts@)[b as int] == before[b as int]);
                push_verdict(&mut verdicts, b, v);
                b += 1;
            }
            assert(grid(verdicts@) == self.planned_verdicts(col.take(row + 1), g, c)) by {
                assert forall|k: int| 0 <= k < branches implies grid(verdicts@)[k]
                    == #[trigger] self.planned_verdicts(col.take(row + 1), g, c)[k] by {
                    assert(before[k] == self.planned_verdicts(col.take(row as int), g, c)[k]);
                    assert(grid(verdicts@)[k] == before[k].push(
                        self.first_verdict(k, t, g, row as int, c),
                    ));
                }
            }
            if let Some(text) = text {
                proof {
                    lemma_open_branches(self, branches as nat, text@, c);
                }
                cache_hits = cache_hits.saturating_add(branches - open.len());
                if open.len() > 0 {
                    let ghost had = pending_views(pending@);
                    requests.push(self.request(text.as_str(), &open));
                    pending.push(PendingRow { row, text: text.clone(), pending: open });
                    assert(pending_views(pending@) == had.push(pending[pending.len() - 1]@));
                }
            }
            row += 1;
        }
        assert(col.take(row as int) == col);
        assert(rectangular(grid(verdicts@), branches as nat, rows as nat)) by {
            assert forall|k: int| 0 <= k < branches implies (#[trigger] grid(verdicts@)[k]).len()
                == rows by {
                assert(grid(verdicts@)[k] == self.planned_verdicts(col, g, c)[k]);
            }
        }
        ClassifyPlan { rows, verdicts, requests, pending, rows_gated, cache_hits }
    }

    /// What an answer says of each of some pending conditions.
    pub open spec fn decoded(count: nat, answer: Seq<char>) -> Seq<Option<bool>> {
        if count == 1 {
            seq![verdict_of(answer)]
        } else {
            match object_in(answer) {
                Some(object) => Seq::new(
                    count,
                    |i: int|
                        match object.member(branch_key(i as nat)) {
                            Some(j) => j.as_bool(),
                            None => None,
                        },
                ),
                None => Seq::new(count, |i: int| None),
            }
        }
    }

    /// The first `n` decoded verdicts of a row are applied, and each usable one
    /// is cached by itself. Where the same was asked before, the first verdict
    /// stands for both.
    pub open spec fn branches_applied(
        &self,
        s: ClassifyState,
        p: PendingView,
        said: Seq<Option<bool>>,
        n: nat,
    ) -> ClassifyState
        decreases n,
    {
        if n == 0 {
            s
        } else {
            let t = self.branches_applied(s, p, said, (n - 1) as nat);
            let branch = p.pending[n - 1];
            match said[n - 1] {
                Some(v) => {
                    let key = self.key(branch, p.text, p.pending.len());
                    let cache = first_kept(t.cache, key, yes_no(v));
                    ClassifyState {
                        verdicts: with_verdict(
                            t.verdicts,
                            branch,
                            p.row,
                            Some(known(cache, key)->0 == "yes"@),
                        ),
                        cache,
                        ..t
                    }
                },
                None => ClassifyState { branches_failed: t.branches_failed + 1, ..t },
            }
        }
    }

    /// A row's answer is applied. A failed call, or an answer without one usable
    /// verdict, fails the row: its pending verdicts stay NULL.
    pub open spec fn row_applied(
        &self,
        s: ClassifyState,
        p: PendingView,
        answer: Option<Seq<char>>,
    ) -> ClassifyState {
        match answer {
            Some(text) => {
                let said = Self::decoded(p.pending.len(), text);
                if forall|i: int| 0 <= i < said.len() ==> (#[trigger] said[i]) is None {
                    ClassifyState { rows_failed: s.rows_failed + 1, ..s }
                } else {
                    self.branches_applied(s, p, said, said.len())
                }
            },
            None => ClassifyState { rows_failed: s.rows_failed + 1, ..s },
        }
    }

    pub open spec fn rows_applied(
        &self,
        s: ClassifyState,
        pending: Seq<PendingView>,
        answers: Seq<Option<Seq<char>>>,
    ) -> ClassifyState
        decreases answers.len(),
    {
        if answers.len() == 0 {
            s
        } else {
            self.row_applied(
                self.rows_applied(s, pending.drop_last(), answers.drop_last()),
                pending.last(),
                answers.last(),
            )
        }
    }

    /// What an answer says of each of some pending conditions.
    fn decode(count: usize, answer: &str) -> (r: Vec<Option<bool>>)
        ensures
            r@ == Self::decoded(count as nat, answer@),
            r.len() == count,
    {
        let mut said: Vec<Option<bool>> = Vec::new();
        if count == 1 {
            said.push(parse_verdict(answer));
            return said;
        }
        let object = parse_json_object(answer);
        let ghost want = Self::decoded(count as nat, answer@);
        let mut i: usize = 0;
        while i < count
            invariant
                i <= count,
                count != 1,
                opt_json(object) == object_in(answer@),
                want == Self::decoded(count as nat, answer@),
                said@ == want.take(i as int),
            decreases count - i,
        {
            let v: Option<bool> = match &object {
                Some(object) => {
                    let key = branch_key_of(i);
                    match value_member(object, key.as_str()) {
                        Some(j) => value_bool(j),
                        None => None,
                    }
                },
                None => None,
            };
            assert(v == want[i as int]);
            said.push(v);
            i += 1;
        }
        assert(want.take(count as int) == want);
        said
    }

    /// Decode one row's answer and cache each verdict it yielded. Conditions
    /// are cached individually, so editing one branch of a `CASE` leaves the
    /// others warm. Only successful verdicts are cached: a transient model
    /// failure must not permanently mislabel a row.
    fn apply_row<C: SemanticCache>(
        &self,
        p: &PendingRow,
        answer: &str,
        verdicts: &mut Vec<Vec<Option<bool>>>,
        cache: &mut C,
        rows_failed: &mut usize,
        branches_failed: &mut usize,
        rows: Ghost<nat>,
        s: Ghost<ClassifyState>,
    )
        requires
            self.pending_fits(*p, rows@),
            rectangular(grid(old(verdicts)@), self.conditions@.len(), rows@),
            grid(old(verdicts)@) == s@.verdicts,
            old(cache).contents() == s@.cache,
            *old(rows_failed) == s@.rows_failed,
            *old(rows_failed) < usize::MAX,
            *old(branches_failed) == saturated(s@.branches_failed as int),
        ensures
            rectangular(grid(final(verdicts)@), self.conditions@.len(), rows@),
            ({
                let t = self.row_applied(s@, p@, Some(answer@));
                &&& grid(final(verdicts)@) == t.verdicts
                &&& final(cache).contents() == t.cache
                &&& *final(rows_failed) == t.rows_failed
                &&& *final(rows_failed) <= *old(rows_failed) + 1
                &&& *final(branches_failed) == saturated(t.branches_failed as int)
            }),
    {
        let said = Self::decode(p.pending.len(), answer);
        let mut any: bool = false;
        let mut k: usize = 0;
        while k < said.len()
            invariant
                k <= said.len(),
                any == (exists|i: int| 0 <= i < k && (#[trigger] said@[i]) is Some),
            decreases said.len() - k,
        {
            if said[k].is_some() {
                assert(said@[k as int] is Some);
                any = true;
            }
            k += 1;
        }
        if !any {
            *rows_failed = *rows_failed + 1;
            return;
        }
        let ghost count = p.pending@.len();
        let mut k: usize = 0;
        while k < said.len()
            invariant
                k <= said.len() == p.pending.len(),
                self.pending_fits(*p, rows@),
                count == p.pending@.len(),
                rectangular(grid(verdicts@), self.conditions@.len(), rows@),
                ({
                    let t = self.branches_applied(s@, p@, said@, k as nat);
                    &&& grid(verdicts@) == t.verdicts
                    &&& cache.contents() == t.cache
                    &&& *rows_failed == t.rows_failed
                    &&& *branches_failed == saturated(t.branches_failed as int)
                }),
            decreases said.len() - k,
        {
            let branch: usize = p.pending[k];
            assert(p@.pending[k as int] == branch as int);
            match said[k] {
                Some(v) => {
                    let key = self.cache_key(branch, p.text.as_str(), p.pending.len());
                    let kept = keep_first(cache, key, verdict_text(v));
                    let ghost before = grid(verdicts@);
                    assert(before[branch as int].len() == rows@);
                    set_verdict(verdicts, branch, p.row, Some(kept == "yes".to_owned()));
                    assert(rectangular(grid(verdicts@), self.conditions@.len(), rows@)) by {
                        assert forall|b: int| 0 <= b < self.conditions@.len() implies (
                        #[trigger] grid(verdicts@)[b]).len() == rows@ by {
                            assert(before[b].len() == rows@);
                        }
                    }
                },
                None => {
                    *branches_failed = branches_failed.saturating_add(1);
                },
            }
            k += 1;
        }
    }

    /// Labels a planned batch with the model's answers.
    pub fn apply<C: SemanticCache>(&self, plan: ClassifyPlan, answers: &Vec<Answer>, cache: &mut C) -> (r:
        ClassifyOutcome)
        requires
            plan.fits(self),
            answers.len() == plan.pending.len(),
        ensures
            ({
                let s = self.rows_applied(
                    ClassifyState {
                        verdicts: grid(plan.verdicts@),
                        cache: old(cache).contents(),
                        rows_failed: 0,
                        branches_failed: 0,
                    },
                    pending_views(plan.pending@),
                    answer_texts(answers@),
                );
                &&& grid(r.verdicts@) == s.verdicts
                &&& final(cache).contents() == s.cache
                &&& r.rows_failed == s.rows_failed
                &&& r.branches_failed == saturated(s.branches_failed as int)
            }),
    {
        let ghost rows = plan.rows as nat;
        let ghost s0 = ClassifyState {
            verdicts: grid(plan.verdicts@),
            cache: cache.contents(),
            rows_failed: 0,
            branches_failed: 0,
        };
        let ghost said = answer_texts(answers@);
        let ghost asked = pending_views(plan.pending@);
        let ClassifyPlan { rows: _, verdicts, requests: _, pending, rows_gated: _, cache_hits: _ } =
            plan;
        let mut verdicts = verdicts;
        let mut rows_failed: usize = 0;
        let mut branches_failed: usize = 0;
        let mut j: usize = 0;
        while j < pending.len()
            invariant
                j <= pending.len() == answers.len(),
                asked == pending_views(pending@),
                said == answer_texts(answers@),
                forall|k: int|
                    0 <= k < pending.len() ==> self.pending_fits(#[trigger] pending[k], rows),
                rectangular(grid(verdicts@), self.conditions@.len(), rows),
                ({
                    let s = self.rows_applied(s0, asked.take(j as int), said.take(j as int));
                    &&& grid(verdicts@) == s.verdicts
                    &&& cache.contents() == s.cache
                    &&& rows_failed == s.rows_failed
                    &&& rows_failed <= j
                    &&& branches_failed == saturated(s.branches_failed as int)
                }),
            decreases pending.len() - j,
        {
            assert(asked.take(j + 1).drop_last() == asked.take(j as int));
            assert(said.take(j + 1).drop_last() == said.take(j as int));
            assert(asked[j as int] == pending[j as int]@);
            assert(said[j as int] == answer_text(answers[j as int]));
            let ghost s = self.rows_applied(s0, asked.take(j as int), said.take(j as int));
            match &answers[j] {
                Err(_) => {
                    rows_failed = rows_failed + 1;
                },
                Ok(completion) => {
                    self.apply_row(
                        &pending[j],
                        completion.text.as_str(),
                        &mut verdicts,
                        cache,
                        &mut rows_failed,
                        &mut branches_failed,
                        Ghost(rows),
                        Ghost(s),
                    );
                },
            }
            j += 1;
        }
        assert(asked.take(j as int) == asked);
        assert(said.take(j as int) == said);
        ClassifyOutcome { verdicts, rows_failed, branches_failed }
    }
}

/// The fusion is an optimization only: a condition that is asked about alone is
/// asked as the verify stage would ask it of the full text, and its verdict is
/// kept under the verify stage's own entry, so either stage pays for the other.
pub proof fn a_lone_condition_is_asked_as_verify_would(
    s: &Classifier,
    v: &Verifier,
    branch: int,
    text: Seq<char>,
)
    requires
        0 <= branch < s.conditions.len(),
        v.condition_text() == s.conditions[branch]@,
        v.model() == s.model_id@,
    ensures
        s.request_view(text, seq![branch]) == v.request(text, Map::empty()),
        s.key(branch, text, 1) == v.key(text),
{
}

/// The entry of the verify stage answers a condition whatever else the stage
/// asks, unless the fused entry already does.
pub proof fn a_verified_text_needs_no_call(s: &Classifier, branch: int, text: Seq<char>, c: Contents)
    requires
        0 <= branch < s.conditions.len(),
        known(c, s.key(branch, text, 1)) is Some,
    ensures
        s.cached_verdict(branch, text, c) is Some,
{
}

/// The conditions that are asked about are exactly those that the cache does
/// not answer, in order.
pub proof fn open_branches_are_the_unanswered(s: &Classifier, n: nat, text: Seq<char>, c: Contents)
    ensures
        forall|b: int|
            s.open_branches(n, text, c).contains(b) <==> 0 <= b < n && (#[trigger] s.cached_verdict(
                b,
                text,
                c,
            )) is None,
        forall|i: int, j: int|
            0 <= i < j < s.open_branches(n, text, c).len() ==> s.open_branches(n, text, c)[i]
                < s.open_branches(n, text, c)[j],
    decreases n,
{
    if n > 0 {
        let m = (n - 1) as nat;
        open_branches_are_the_unanswered(s, m, text, c);
        lemma_open_branches(s, m, text, c);
        let before = s.open_branches(m, text, c);
        let now = s.open_branches(n, text, c);
        assert forall|b: int|
            now.contains(b) <==> 0 <= b < n && (#[trigger] s.cached_verdict(b, text, c)) is None by {
            assert(before.contains(b) <==> 0 <= b < m && s.cached_verdict(b, text, c) is None);
            if before.contains(b) {
                let k = choose|k: int| 0 <= k < before.len() && before[k] == b;
                assert(now[k] == b);
            }
            if now.contains(b) && b < m {
                let k = choose|k: int| 0 <= k < now.len() && now[k] == b;
                assert(before[k] == b);
            }
            if b == m && s.cached_verdict(b, text, c) is None {
                assert(now[now.len() - 1] == b);
            }
        }
    }
}

/// A row that the guard excludes, or whose text is NULL, is false in every
/// column and costs no call.
pub proof fn unasked_rows_cost_nothing(
    s: &Classifier,
    texts: Seq<Option<Seq<char>>>,
    guard: Option<Seq<Option<bool>>>,
    c: Contents,
    row: int,
)
    requires
        0 <= row < texts.len(),
        !admits(guard, row) || texts[row] is None,
    ensures
        forall|b: int|
            0 <= b < s.conditions.len() ==> #[trigger] s.planned_verdicts(texts, guard, c)[b][row]
                == Some(false),
        forall|j: int|
            0 <= j < s.planned_rows(texts, guard, c).len() ==> (#[trigger] s.planned_rows(
                texts,
                guard,
                c,
            )[j]).row != row,
    decreases texts.len(),
{
    lemma_planned_rows(s, texts, guard, c);
}

proof fn lemma_planned_rows(
    s: &Classifier,
    texts: Seq<Option<Seq<char>>>,
    guard: Option<Seq<Option<bool>>>,
    c: Contents,
)
    ensures
        forall|j: int|
            0 <= j < s.planned_rows(texts, guard, c).len() ==> {
                let p = #[trigger] s.planned_rows(texts, guard, c)[j];
                &&& 0 <= p.row < texts.len()
                &&& Classifier::asks(texts[p.row], guard, p.row)
                &&& p.text == texts[p.row]->0
                &&& p.pending == s.open_branches(s.conditions@.len(), p.text, c)
                &&& p.pending.len() > 0
            },
        forall|i: int, j: int|
            0 <= i < j < s.planned_rows(texts, guard, c).len() ==> (#[trigger] s.planned_rows(
                texts,
                guard,
                c,
            )[i]).row < (#[trigger] s.planned_rows(texts, guard, c)[j]).row,
    decreases texts.len(),
{
    if texts.len() > 0 {
        lemma_planned_rows(s, texts.drop_last(), guard, c);
        let before = s.planned_rows(texts.drop_last(), guard, c);
        let now = s.planned_rows(texts, guard, c);
        assert forall|j: int| 0 <= j < now.len() implies {
            let p = #[trigger] now[j];
            &&& 0 <= p.row < texts.len()
            &&& Classifier::asks(texts[p.row], guard, p.row)
            &&& p.text == texts[p.row]->0
            &&& p.pending == s.open_branches(s.conditions@.len(), p.text, c)
            &&& p.pending.len() > 0
        } by {
            if j < before.len() {
                assert(now[j] == before[j]);
                assert(texts.drop_last()[before[j].row] == texts[before[j].row]);
            }
        }
        assert forall|i: int, j: int| 0 <= i < j < now.len() implies (#[trigger] now[i]).row < (
        #[trigger] now[j]).row by {
            assert(now[i] == before[i]);
            if j < before.len() {
                assert(now[j] == before[j]);
            }
        }
    }
}

/// Every row that lacks a verdict is planned.
proof fn lemma_row_planned(
    s: &Classifier,
    texts: Seq<Option<Seq<char>>>,
    guard: Option<Seq<Option<bool>>>,
    c: Contents,
    row: int,
) -> (j: int)
    requires
        0 <= row < texts.len(),
        Classifier::asks(texts[row], guard, row),
        s.open_branches(s.conditions@.len(), texts[row]->0, c).len() > 0,
    ensures
        0 <= j < s.planned_rows(texts, guard, c).len(),
        s.planned_rows(texts, guard, c)[j].row == row,
        s.planned_rows(texts, guard, c)[j].text == texts[row]->0,
        s.planned_rows(texts, guard, c)[j].pending == s.open_branches(
            s.conditions@.len(),
            texts[row]->0,
            c,
        ),
    decreases texts.len(),
{
    let now = s.planned_rows(texts, guard, c);
    if row == texts.len() - 1 {
        now.len() - 1
    } else {
        let before = s.planned_rows(texts.drop_last(), guard, c);
        assert(texts.drop_last()[row] == texts[row]);
        let j = lemma_row_planned(s, texts.drop_last(), guard, c, row);
        assert(now[j] == before[j]);
        j
    }
}

/// Whether a pending row is one of a grid of verdicts, and its conditions stand
/// in order.
spec fn row_fits(p: PendingView, branches: nat, rows: nat) -> bool {
    &&& 0 <= p.row < rows
    &&& forall|i: int| 0 <= i < p.pending.len() ==> 0 <= #[trigger] p.pending[i] < branches
    &&& forall|i: int, j: int| 0 <= i < j < p.pending.len() ==> p.pending[i] < p.pending[j]
}

/// The entry under which a pending verdict is kept.
spec fn pending_key(s: &Classifier, p: PendingView, i: int) -> KeyView {
    s.key(p.pending[i], p.text, p.pending.len())
}

/// Applying a row's verdicts changes no answer of the cache, adds entries of the
/// row's questions alone, only counts failures up, and gives each condition the
/// verdict that is kept, unless it counts a failure.
proof fn lemma_branches_kept(
    s: &Classifier,
    t: ClassifyState,
    p: PendingView,
    said: Seq<Option<bool>>,
    n: nat,
    branches: nat,
    rows: nat,
)
    requires
        n <= said.len() == p.pending.len(),
        rectangular(t.verdicts, branches, rows),
        row_fits(p, branches, rows),
    ensures
        ({
            let u = s.branches_applied(t, p, said, n);
            &&& rectangular(u.verdicts, branches, rows)
            &&& forall|k: KeyView| #[trigger]
                known(t.cache, k) is Some ==> known(u.cache, k) == known(t.cache, k)
            &&& forall|k: KeyView| #[trigger]
                known(u.cache, k) is Some && known(t.cache, k) is None ==> exists|i: int|
                    0 <= i < n && k == #[trigger] pending_key(s, p, i)
            &&& u.rows_failed == t.rows_failed
            &&& u.branches_failed >= t.branches_failed
            &&& u.branches_failed == t.branches_failed ==> forall|i: int|
                0 <= i < n ==> known(u.cache, #[trigger] pending_key(s, p, i)) is Some
                    && u.verdicts[p.pending[i]][p.row] == Some(
                    known(u.cache, pending_key(s, p, i))->0 == "yes"@,
                )
            &&& forall|b: int, row: int|
                0 <= b < branches && 0 <= row < rows && (row != p.row || forall|i: int|
                    0 <= i < n ==> #[trigger] p.pending[i] != b) ==> #[trigger] u.verdicts[b][row]
                    == t.verdicts[b][row]
        }),
    decreases n,
{
    if n > 0 {
        let m = (n - 1) as nat;
        lemma_branches_kept(s, t, p, said, m, branches, rows);
        let v = s.branches_applied(t, p, said, m);
        let u = s.branches_applied(t, p, said, n);
        let branch = p.pending[m as int];
        let key = pending_key(s, p, m as int);
        assert(v.verdicts[branch].len() == rows);
        assert(rectangular(u.verdicts, branches, rows)) by {
            assert forall|b: int| 0 <= b < branches implies (#[trigger] u.verdicts[b]).len()
                == rows by {
                assert(v.verdicts[b].len() == rows);
            }
        }
        assert forall|k: KeyView| #[trigger]
            known(u.cache, k) is Some && known(t.cache, k) is None implies exists|i: int|
            0 <= i < n && k == #[trigger] pending_key(s, p, i) by {
            if known(v.cache, k) is Some {
                let i = choose|i: int| 0 <= i < m && k == #[trigger] pending_key(s, p, i);
                assert(k == pending_key(s, p, i));
            } else {
                assert(k == key);
            }
        }
        if u.branches_failed == t.branches_failed {
            assert forall|i: int| 0 <= i < n implies known(
                u.cache,
                #[trigger] pending_key(s, p, i),
            ) is Some && u.verdicts[p.pending[i]][p.row] == Some(
                known(u.cache, pending_key(s, p, i))->0 == "yes"@,
            ) by {
                if i < m {
                    assert(p.pending[i] < p.pending[m as int]);
                    assert(known(v.cache, pending_key(s, p, i)) is Some);
                }
            }
        }
        assert forall|b: int, row: int|
            0 <= b < branches && 0 <= row < rows && (row != p.row || forall|i: int|
                0 <= i < n ==> #[trigger] p.pending[i] != b) implies #[trigger] u.verdicts[b][row]
            == t.verdicts[b][row] by {
            assert(v.verdicts[b][row] == t.verdicts[b][row]);
            if row == p.row {
                assert(p.pending[m as int] != b);
            }
        }
    }
}

/// The same of all rows of a batch, one after another.
proof fn lemma_rows_kept(
    s: &Classifier,
    t: ClassifyState,
    pending: Seq<PendingView>,
    answers: Seq<Option<Seq<char>>>,
    branches: nat,
    rows: nat,
)
    requires
        pending.len() == answers.len(),
        rectangular(t.verdicts, branches, rows),
        forall|j: int| 0 <= j < pending.len() ==> row_fits(#[trigger] pending[j], branches, rows),
        forall|i: int, j: int|
            0 <= i < j < pending.len() ==> (#[trigger] pending[i]).row < (
            #[trigger] pending[j]).row,
    ensures
        ({
            let u = s.rows_applied(t, pending, answers);
            &&& rectangular(u.verdicts, branches, rows)
            &&& forall|k: KeyView| #[trigger]
                known(t.cache, k) is Some ==> known(u.cache, k) == known(t.cache, k)
            &&& forall|k: KeyView| #[trigger]
                known(u.cache, k) is Some && known(t.cache, k) is None ==> exists|j: int, i: int|
                    0 <= j < pending.len() && 0 <= i < pending[j].pending.len() && k
                        == #[trigger] pending_key(s, pending[j], i)
            &&& u.rows_failed >= t.rows_failed
            &&& u.branches_failed >= t.branches_failed
            &&& u.rows_failed == t.rows_failed && u.branches_failed == t.branches_failed
                ==> forall|j: int, i: int|
                0 <= j < pending.len() && 0 <= i < pending[j].pending.len() ==> known(
                    u.cache,
                    #[trigger] pending_key(s, pending[j], i),
                ) is Some && u.verdicts[pending[j].pending[i]][pending[j].row] == Some(
                    known(u.cache, pending_key(s, pending[j], i))->0 == "yes"@,
                )
            &&& forall|b: int, row: int|
                0 <= b < branches && 0 <= row < rows && (forall|j: int|
                    0 <= j < pending.len() && (#[trigger] pending[j]).row == row
                        ==> !pending[j].pending.contains(b)) ==> #[trigger] u.verdicts[b][row]
                    == t.verdicts[b][row]
        }),
    decreases answers.len(),
{
    if answers.len() > 0 {
        let before = pending.drop_last();
        let last = pending.len() - 1;
        let p = pending[last];
        assert forall|j: int| 0 <= j < before.len() implies row_fits(
            #[trigger] before[j],
            branches,
            rows,
        ) by {
            assert(before[j] == pending[j]);
        }
        lemma_rows_kept(s, t, before, answers.drop_last(), branches, rows);
        let v = s.rows_applied(t, before, answers.drop_last());
        let u = s.rows_applied(t, pending, answers);
        if answers.last() is Some {
            let said = Classifier::decoded(p.pending.len(), answers.last()->0);
            assert(said.len() == p.pending.len());
            lemma_branches_kept(s, v, p, said, said.len(), branches, rows);
        }
        assert forall|k: KeyView| #[trigger]
            known(u.cache, k) is Some && known(t.cache, k) is None implies exists|j: int, i: int|
            0 <= j < pending.len() && 0 <= i < pending[j].pending.len() && k
                == #[trigger] pending_key(s, pending[j], i) by {
            if known(v.cache, k) is Some {
                let (j, i) = choose|j: int, i: int|
                    0 <= j < before.len() && 0 <= i < before[j].pending.len() && k
                        == #[trigger] pending_key(s, before[j], i);
                assert(k == pending_key(s, pending[j], i));
            } else {
                let i = choose|i: int|
                    0 <= i < p.pending.len() && k == #[trigger] pending_key(s, p, i);
                assert(k == pending_key(s, pending[last], i));
            }
        }
        if u.rows_failed == t.rows_failed && u.branches_failed == t.branches_failed {
            assert forall|j: int, i: int|
                0 <= j < pending.len() && 0 <= i < pending[j].pending.len() implies known(
                u.cache,
                #[trigger] pending_key(s, pending[j], i),
            ) is Some && u.verdicts[pending[j].pending[i]][pending[j].row] == Some(
                known(u.cache, pending_key(s, pending[j], i))->0 == "yes"@,
            ) by {
                if j < before.len() {
                    let b = before[j].pending[i];
                    assert(before[j] == pending[j]);
                    assert(known(v.cache, pending_key(s, before[j], i)) is Some);
                    assert(pending[j].row < pending[last].row);
                    assert(row_fits(pending[j], branches, rows));
                    assert(u.verdicts[b][pending[j].row] == v.verdicts[b][pending[j].row]);
                }
            }
        }
        assert forall|b: int, row: int|
            0 <= b < branches && 0 <= row < rows && (forall|j: int|
                0 <= j < pending.len() && (#[trigger] pending[j]).row == row
                    ==> !pending[j].pending.contains(b)) implies #[trigger] u.verdicts[b][row]
            == t.verdicts[b][row] by {
            assert forall|j: int|
                0 <= j < before.len() && (#[trigger] before[j]).row == row implies !before[j].pending.contains(
            b) by {
                assert(before[j] == pending[j]);
            }
            assert(v.verdicts[b][row] == t.verdicts[b][row]);
            if row == p.row {
                assert(!pending[last].pending.contains(b));
                assert forall|i: int| 0 <= i < p.pending.len() implies #[trigger] p.pending[i]
                    != b by {
                    assert(p.pending.contains(p.pending[i]));
                }
            }
        }
    }
}

/// Texts that are kept under the same entries lack the same conditions.
proof fn lemma_same_hash(s: &Classifier, n: nat, a: Seq<char>, b: Seq<char>, c: Contents)
    requires
        input_hash(a) == input_hash(b),
    ensures
        s.open_branches(n, a, c) == s.open_branches(n, b, c),
    decreases n,
{
    if n > 0 {
        lemma_same_hash(s, (n - 1) as nat, a, b, c);
        assert(s.cached_verdict(n - 1, a, c) == s.cached_verdict(n - 1, b, c));
    }
}

/// Which of the two entries of a condition holds its verdict is settled by the
/// cache that the batch was planned on: applying the batch adds no fused entry
/// beside a verify entry.
proof fn lemma_no_second_entry(
    s: &Classifier,
    texts: Seq<Option<Seq<char>>>,
    guard: Option<Seq<Option<bool>>>,
    c: Contents,
    after: Contents,
    b: int,
    text: Seq<char>,
)
    requires
        0 <= b < s.conditions@.len(),
        known(c, s.key(b, text, s.conditions@.len())) is None,
        known(c, s.key(b, text, 1)) is Some || s.open_branches(s.conditions@.len(), text, c).len()
            == 1,
        s.conditions@.len() != 1,
        forall|k: KeyView| #[trigger]
            known(after, k) is Some && known(c, k) is None ==> exists|j: int, i: int|
                0 <= j < s.planned_rows(texts, guard, c).len() && 0 <= i < s.planned_rows(
                    texts,
                    guard,
                    c,
                )[j].pending.len() && k == #[trigger] pending_key(
                    s,
                    s.planned_rows(texts, guard, c)[j],
                    i,
                ),
    ensures
        known(after, s.key(b, text, s.conditions@.len())) is None,
{
    let n = s.conditions@.len();
    let pending = s.planned_rows(texts, guard, c);
    let k = s.key(b, text, n);
    if known(after, k) is Some {
        let (j, i) = choose|j: int, i: int|
            0 <= j < pending.len() && 0 <= i < pending[j].pending.len() && k
                == #[trigger] pending_key(s, pending[j], i);
        let p = pending[j];
        let d = p.pending[i];
        lemma_planned_rows(s, texts, guard, c);
        reveal_strlit("classify-v1");
        reveal_strlit("means-v2");
        assert(MEANS_PROMPT_VERSION@.len() != CLASSIFY_PROMPT_VERSION@.len());
        assert(k.prompt_version == CLASSIFY_PROMPT_VERSION@);
        assert(p.pending.len() != 1);
        assert(input_hash(p.text) == input_hash(text));
        assert(s.conditions[d]@ == s.conditions[b]@);
        lemma_same_hash(s, n, p.text, text, c);
        open_branches_are_the_unanswered(s, n, p.text, c);
        assert(p.pending.contains(d));
        assert(s.cached_verdict(d, p.text, c) is None);
        assert(s.key(d, p.text, 1) == s.key(b, text, 1));
    }
}

/// Pay once, and re-running is deterministic: where every answer was usable, the
/// same rows need no call again, and have the same verdicts.
pub proof fn a_classified_batch_is_free_the_next_time(
    s: &Classifier,
    texts: Seq<Option<Seq<char>>>,
    guard: Option<Seq<Option<bool>>>,
    start: ClassifyState,
    answers: Seq<Option<Seq<char>>>,
)
    requires
        start.verdicts == s.planned_verdicts(texts, guard, start.cache),
        answers.len() == s.planned_rows(texts, guard, start.cache).len(),
        ({
            let end = s.rows_applied(start, s.planned_rows(texts, guard, start.cache), answers);
            end.rows_failed == start.rows_failed && end.branches_failed == start.branches_failed
        }),
    ensures
        ({
            let end = s.rows_applied(start, s.planned_rows(texts, guard, start.cache), answers);
            &&& s.planned_rows(texts, guard, end.cache).len() == 0
            &&& s.planned_verdicts(texts, guard, end.cache) == end.verdicts
        }),
{
    let pending = s.planned_rows(texts, guard, start.cache);
    let end = s.rows_applied(start, pending, answers);
    let n = s.conditions@.len();
    let rows = texts.len();
    lemma_planned_rows(s, texts, guard, start.cache);
    assert(rectangular(start.verdicts, n, rows));
    assert forall|j: int| 0 <= j < pending.len() implies row_fits(#[trigger] pending[j], n, rows) by {
        lemma_open_branches(s, n, pending[j].text, start.cache);
        open_branches_are_the_unanswered(s, n, pending[j].text, start.cache);
        assert forall|i: int| 0 <= i < pending[j].pending.len() implies 0
            <= #[trigger] pending[j].pending[i] < n by {
            assert(pending[j].pending.contains(pending[j].pending[i]));
        }
    }
    lemma_rows_kept(s, start, pending, answers, n, rows);
    assert forall|b: int, row: int| 0 <= b < n && 0 <= row < rows implies #[trigger]
    end.verdicts[b][row] == s.first_verdict(b, texts[row], guard, row, end.cache) && (
    Classifier::asks(texts[row], guard, row) ==> s.cached_verdict(b, texts[row]->0, end.cache)
        is Some) by {
        lemma_cell(s, texts, guard, start, answers, b, row);
    }
    let again = s.planned_rows(texts, guard, end.cache);
    if again.len() > 0 {
        lemma_planned_rows(s, texts, guard, end.cache);
        let q = again[0];
        let b = q.pending[0];
        open_branches_are_the_unanswered(s, n, q.text, end.cache);
        assert(q.pending.contains(b));
        assert(end.verdicts[b][q.row] == s.first_verdict(
            b,
            texts[q.row],
            guard,
            q.row,
            end.cache,
        ));
    }
    let want = s.planned_verdicts(texts, guard, end.cache);
    assert forall|b: int| 0 <= b < n implies #[trigger] want[b] == end.verdicts[b] by {
        assert(end.verdicts[b].len() == rows);
        assert(want[b] =~= end.verdicts[b]);
    }
    assert(want =~= end.verdicts);
}

proof fn lemma_cell(
    s: &Classifier,
    texts: Seq<Option<Seq<char>>>,
    guard: Option<Seq<Option<bool>>>,
    start: ClassifyState,
    answers: Seq<Option<Seq<char>>>,
    b: int,
    row: int,
)
    requires
        start.verdicts == s.planned_verdicts(texts, guard, start.cache),
        answers.len() == s.planned_rows(texts, guard, start.cache).len(),
        ({
            let end = s.rows_applied(start, s.planned_rows(texts, guard, start.cache), answers);
            end.rows_failed == start.rows_failed && end.branches_failed == start.branches_failed
        }),
        forall|j: int|
            0 <= j < answers.len() ==> row_fits(
                #[trigger] s.planned_rows(texts, guard, start.cache)[j],
                s.conditions@.len(),
                texts.len(),
            ),
        0 <= b < s.conditions@.len(),
        0 <= row < texts.len(),
    ensures
        ({
            let end = s.rows_applied(start, s.planned_rows(texts, guard, start.cache), answers);
            &&& end.verdicts[b][row] == s.first_verdict(b, texts[row], guard, row, end.cache)
            &&& Classifier::asks(texts[row], guard, row) ==> s.cached_verdict(
                b,
                texts[row]->0,
                end.cache,
            ) is Some
        }),
{
    let c = start.cache;
    let pending = s.planned_rows(texts, guard, c);
    let end = s.rows_applied(start, pending, answers);
    let n = s.conditions@.len();
    let rows = texts.len();
    lemma_planned_rows(s, texts, guard, c);
    assert(rectangular(start.verdicts, n, rows));
    lemma_rows_kept(s, start, pending, answers, n, rows);
    let asked = Classifier::asks(texts[row], guard, row);
    let text = texts[row]->0;
    if asked {
        open_branches_are_the_unanswered(s, n, text, c);
        lemma_open_branches(s, n, text, c);
    }
    let open = s.open_branches(n, text, c);
    if asked && s.cached_verdict(b, text, c) is None {
        assert(open.contains(b));
        let i = choose|i: int| 0 <= i < open.len() && open[i] == b;
        let j = lemma_row_planned(s, texts, guard, c, row);
        let key = pending_key(s, pending[j], i);
        assert(known(end.cache, key) is Some);
        assert(end.verdicts[pending[j].pending[i]][pending[j].row] == Some(
            known(end.cache, key)->0 == "yes"@,
        ));
        assert(key == s.key(b, text, open.len()));
        if open.len() == 1 && n != 1 {
            lemma_no_second_entry(s, texts, guard, c, end.cache, b, text);
        }
    } else {
        assert forall|j: int|
            0 <= j < pending.len() && (#[trigger] pending[j]).row
                == row implies !pending[j].pending.contains(b) by {
            assert(pending[j].text == texts[row]->0);
        }
        assert(end.verdicts[b][row] == start.verdicts[b][row]);
        assert(start.verdicts[b][row] == s.first_verdict(b, texts[row], guard, row, c));
        if asked {
            let fused = s.key(b, text, n);
            if known(c, fused) is Some {
                assert(known(end.cache, fused) == known(c, fused));
            } else {
                assert(known(c, s.key(b, text, 1)) is Some);
                assert(known(end.cache, s.key(b, text, 1)) == known(c, s.key(b, text, 1)));
                if n != 1 {
                    lemma_no_second_entry(s, texts, guard, c, end.cache, b, text);
                }
            }
        }
    }
}

/// Two conditions of one request never share a key.
pub proof fn branch_keys_never_collide(a: nat, b: nat)
    requires
        branch_key(a) == branch_key(b),
    ensures
        a == b,
{
    let x = branch_key(a);
    let y = branch_key(b);
    assert(decimal(a) =~= x.skip("c"@.len() as int));
    assert(decimal(b) =~= y.skip("c"@.len() as int));
    decimal_is_injective(a, b);
}

/// The line of a condition in the fused prompt.
proof fn lemma_condition_line(conditions: Seq<Seq<char>>, i: int)
    requires
        0 <= i < conditions.len(),
    ensures
        occurs_in(
            branch_key(i as nat) + ": "@ + conditions[i] + "\n"@,
            condition_lines(conditions),
        ),
    decreases conditions.len(),
{
    let line = branch_key(i as nat) + ": "@ + conditions[i] + "\n"@;
    let last = conditions.len() - 1;
    let before = condition_lines(conditions.drop_last());
    let all = condition_lines(conditions);
    let own = branch_key(last as nat) + ": "@ + conditions.last() + "\n"@;
    lemma_line_apart(before, branch_key(last as nat), ": "@, conditions.last(), "\n"@);
    assert(all == before + own);
    if i == last {
        lemma_ends_stand(before, own);
    } else {
        lemma_condition_line(conditions.drop_last(), i);
        lemma_ends_stand(before, own);
        a_part_of_a_part_is_a_part(line, before, all);
    }
}

proof fn lemma_line_apart(
    before: Seq<char>,
    a: Seq<char>,
    b: Seq<char>,
    c: Seq<char>,
    d: Seq<char>,
)
    ensures
        before + a + b + c + d == before + (a + b + c + d),
{
    assert(before + a + b + c + d =~= before + (a + b + c + d));
}

proof fn lemma_ends_stand(a: Seq<char>, b: Seq<char>)
    ensures
        occurs_in(a, a + b),
        occurs_in(b, a + b),
{
    let whole = a + b;
    assert(whole.subrange(0, 0int + a.len()) =~= a);
    assert(whole.subrange(a.len() as int, a.len() as int + b.len()) =~= b);
}

/// A condition keeps its name through one call: the fused prompt states it, word
/// for word, beside a key; the schema asks for a boolean under that key, and for no
/// other member; and the boolean under that key, as it stands, is what the answer
/// says of the condition.
pub proof fn a_condition_is_answered_under_its_own_key(
    conditions: Seq<Seq<char>>,
    i: int,
    answer: Seq<char>,
)
    requires
        0 <= i < conditions.len(),
        conditions.len() != 1,
    ensures
        ({
            let n = conditions.len();
            let key = branch_key(i as nat);
            let said = Classifier::decoded(n, answer);
            &&& occurs_in(key + ": "@ + conditions[i] + "\n"@, classify_prompt(conditions))
            &&& occurs_in(conditions[i], classify_prompt(conditions))
            &&& branch_properties(n).contains_key(key)
            &&& branch_properties(n)[key] == boolean_schema()
            &&& said.len() == n
            &&& (object_in(answer) matches Some(object) ==> (object.member(key) matches Some(
                Json::Bool(b),
            ) ==> said[i] == Some(b)))
            &&& said[i] is Some ==> object_in(answer) is Some && object_in(answer)->0.member(key)
                == Some(Json::Bool(said[i]->0))
        }),
{
    let key = branch_key(i as nat);
    let line = key + ": "@ + conditions[i] + "\n"@;
    let lines = condition_lines(conditions);
    let head =
        "You are evaluating several independent predicates over one document. Judge each one on its own merits; they are not alternatives and any number of them may hold.\n\n"@;
    let tail =
        "\nReply with a JSON object mapping each predicate's key to true or false, e.g. {\"c0\": true, \"c1\": false}."@;
    lemma_condition_line(conditions, i);
    a_framed_text_stands_in_the_whole(head, lines, tail);
    a_part_of_a_part_is_a_part(line, lines, classify_prompt(conditions));
    a_framed_text_stands_in_the_whole(key + ": "@, conditions[i], "\n"@);
    a_part_of_a_part_is_a_part(conditions[i], line, classify_prompt(conditions));
    lemma_branch_properties(conditions.len(), i as nat);
}

proof fn lemma_branch_properties(count: nat, i: nat)
    ensures
        i < count ==> branch_properties(count).contains_key(branch_key(i)) && branch_properties(
            count,
        )[branch_key(i)] == boolean_schema(),
        forall|key: Seq<char>| #[trigger]
            branch_properties(count).contains_key(key) ==> exists|k: nat|
                k < count && key == branch_key(k),
    decreases count,
{
    if count > 0 {
        let last = (count - 1) as nat;
        lemma_branch_properties(last, i);
        let before = branch_properties(last);
        assert forall|key: Seq<char>| #[trigger]
            branch_properties(count).contains_key(key) implies exists|k: nat|
            k < count && key == branch_key(k) by {
            if before.contains_key(key) {
                let k = choose|k: nat| k < last && key == branch_key(k);
                assert(k < count && key == branch_key(k));
            } else {
                assert(last < count && key == branch_key(last));
            }
        }
    }
}

/// The model reads the whole text, and every condition that it is asked about
/// stands in the instruction, word for word.
pub proof fn a_request_states_every_open_condition(
    s: &Classifier,
    text: Seq<char>,
    pending: Seq<int>,
    i: int,
)
    requires
        0 <= i < pending.len(),
    ensures
        s.request_view(text, pending).input == text,
        occurs_in(s.conditions[pending[i]]@, s.request_view(text, pending).system),
{
    if pending.len() == 1 {
        prompts_state_the_condition(s.conditions[pending[0]]@);
    } else {
        let conditions = pending.map_values(|b: int| s.conditions[b]@);
        a_condition_is_answered_under_its_own_key(conditions, i, Seq::empty());
    }
}

/// A cached verdict is read as it was written: a yes is true, a no is false, and
/// where the stage has one condition, it is true exactly where the verify stage
/// would keep the row.
pub proof fn a_cached_verdict_is_read_as_it_was_written(
    s: &Classifier,
    v: &Verifier,
    branch: int,
    text: Seq<char>,
    c: Contents,
    verdict: bool,
)
    requires
        0 <= branch < s.conditions.len(),
    ensures
        known(c, s.key(branch, text, s.conditions@.len())) == Some(yes_no(verdict))
            ==> s.cached_verdict(branch, text, c) == Some(verdict),
        known(c, s.key(branch, text, s.conditions@.len())) is None && known(
            c,
            s.key(branch, text, 1),
        ) == Some(yes_no(verdict)) ==> s.cached_verdict(branch, text, c) == Some(verdict),
        s.conditions.len() == 1 && v.condition_text() == s.conditions[branch]@ && v.model()
            == s.model_id@ ==> (s.cached_verdict(branch, text, c) == Some(true) <==> known(
            c,
            v.key(text),
        ) == Some("yes"@)),
{
    cached_verdicts_read_back(verdict);
}

/// A verdict answers one condition: another condition, another model, an input of
/// another hash, or a call of the other kind has another key.
pub proof fn a_fused_verdict_answers_one_question(
    a: &Classifier,
    b: &Classifier,
    i: int,
    j: int,
    text_a: Seq<char>,
    text_b: Seq<char>,
    asked_a: nat,
    asked_b: nat,
)
    requires
        a.conditions[i]@ != b.conditions[j]@ || a.model_id@ != b.model_id@ || input_hash(text_a)
            != input_hash(text_b) || (asked_a == 1) != (asked_b == 1),
    ensures
        a.key(i, text_a, asked_a) != b.key(j, text_b, asked_b),
{
    let x = a.key(i, text_a, asked_a);
    let y = b.key(j, text_b, asked_b);
    assert(x.type_version == a.conditions[i]@ && y.type_version == b.conditions[j]@);
    assert(x.model_id == a.model_id@ && y.model_id == b.model_id@);
    reveal_strlit("means-v2");
    reveal_strlit("classify-v1");
    assert(MEANS_PROMPT_VERSION@.len() == 8);
    assert(CLASSIFY_PROMPT_VERSION@.len() == 11);
}

/// Where a condition is asked of a text for the first time, its column takes what
/// the answer says of it, in the row that was asked about; without a usable verdict
/// the cell stays as it was.
pub proof fn a_condition_takes_its_own_verdict(
    s: &Classifier,
    t: ClassifyState,
    p: PendingView,
    said: Seq<Option<bool>>,
    n: nat,
    i: int,
    branches: nat,
    rows: nat,
)
    requires
        n <= said.len() == p.pending.len(),
        0 <= i < n,
        rectangular(t.verdicts, branches, rows),
        0 <= p.row < rows,
        forall|k: int| 0 <= k < p.pending.len() ==> 0 <= #[trigger] p.pending[k] < branches,
        known(t.cache, s.key(p.pending[i], p.text, p.pending.len())) is None,
        forall|k: int|
            0 <= k < p.pending.len() && k != i ==> s.conditions[#[trigger] p.pending[k]]@
                != s.conditions[p.pending[i]]@,
    ensures
        ({
            let end = s.branches_applied(t, p, said, n);
            &&& rectangular(end.verdicts, branches, rows)
            &&& end.verdicts[p.pending[i]][p.row] == (if said[i] is Some {
                said[i]
            } else {
                t.verdicts[p.pending[i]][p.row]
            })
        }),
    decreases n,
{
    let own = s.key(p.pending[i], p.text, p.pending.len());
    lemma_branches_before(s, t, p, said, i as nat, i, branches, rows);
    let before = s.branches_applied(t, p, said, i as nat);
    if said[i] is Some {
        cached_verdicts_read_back(said[i]->0);
    }
    let here = s.branches_applied(t, p, said, (i + 1) as nat);
    assert(here.verdicts[p.pending[i]][p.row] == (if said[i] is Some {
        said[i]
    } else {
        t.verdicts[p.pending[i]][p.row]
    }));
    lemma_branches_after(s, t, p, said, n, i, branches, rows);
}

proof fn lemma_branches_before(
    s: &Classifier,
    t: ClassifyState,
    p: PendingView,
    said: Seq<Option<bool>>,
    n: nat,
    i: int,
    branches: nat,
    rows: nat,
)
    requires
        n <= i < said.len() == p.pending.len(),
        rectangular(t.verdicts, branches, rows),
        0 <= p.row < rows,
        forall|k: int| 0 <= k < p.pending.len() ==> 0 <= #[trigger] p.pending[k] < branches,
        forall|k: int|
            0 <= k < p.pending.len() && k != i ==> s.conditions[#[trigger] p.pending[k]]@
                != s.conditions[p.pending[i]]@,
    ensures
        ({
            let end = s.branches_applied(t, p, said, n);
            let own = s.key(p.pending[i], p.text, p.pending.len());
            &&& rectangular(end.verdicts, branches, rows)
            &&& end.verdicts[p.pending[i]][p.row] == t.verdicts[p.pending[i]][p.row]
            &&& known(end.cache, own) == known(t.cache, own)
        }),
    decreases n,
{
    if n > 0 {
        let m = (n - 1) as nat;
        lemma_branches_before(s, t, p, said, m, i, branches, rows);
        let before = s.branches_applied(t, p, said, m);
        let k = m as int;
        assert(s.conditions[p.pending[k]]@ != s.conditions[p.pending[i]]@);
        assert(p.pending[k] != p.pending[i]);
        a_fused_verdict_answers_one_question(
            s,
            s,
            p.pending[k],
            p.pending[i],
            p.text,
            p.text,
            p.pending.len(),
            p.pending.len(),
        );
        assert(before.verdicts[p.pending[k]].len() == rows);
    }
}

proof fn lemma_branches_after(
    s: &Classifier,
    t: ClassifyState,
    p: PendingView,
    said: Seq<Option<bool>>,
    n: nat,
    i: int,
    branches: nat,
    rows: nat,
)
    requires
        0 <= i < n <= said.len() == p.pending.len(),
        rectangular(t.verdicts, branches, rows),
        0 <= p.row < rows,
        forall|k: int| 0 <= k < p.pending.len() ==> 0 <= #[trigger] p.pending[k] < branches,
        forall|k: int|
            0 <= k < p.pending.len() && k != i ==> s.conditions[#[trigger] p.pending[k]]@
                != s.conditions[p.pending[i]]@,
    ensures
        ({
            let here = s.branches_applied(t, p, said, (i + 1) as nat);
            let end = s.branches_applied(t, p, said, n);
            &&& rectangular(end.verdicts, branches, rows)
            &&& end.verdicts[p.pending[i]][p.row] == here.verdicts[p.pending[i]][p.row]
        }),
    decreases n,
{
    let m = (n - 1) as nat;
    if n > i + 1 {
        lemma_branches_after(s, t, p, said, m, i, branches, rows);
        let before = s.branches_applied(t, p, said, m);
        let k = m as int;
        assert(s.conditions[p.pending[k]]@ != s.conditions[p.pending[i]]@);
        assert(p.pending[k] != p.pending[i]);
        assert(before.verdicts[p.pending[k]].len() == rows);
    } else {
        lemma_branches_before(s, t, p, said, i as nat, i, branches, rows);
        let before = s.branches_applied(t, p, said, i as nat);
        assert(0 <= p.pending[i] < branches);
        assert(before.verdicts[p.pending[i]].len() == rows);
    }
}

/// A guard holds back the rows of which it is not definitely true, and the counter
/// counts them.
pub proof fn a_guard_holds_back_what_is_not_true(rows: nat, guard: Option<Seq<Option<bool>>>)
    ensures
        guard is None ==> Classifier::gated(rows, guard) == 0,
        guard is Some ==> Classifier::gated(rows, guard) == Seq::new(
            rows,
            |i: int| guard->0[i],
        ).filter(|b: Option<bool>| b != Some(true)).len(),
    decreases rows,
{
    reveal(Seq::filter);
    if rows > 0 {
        a_guard_holds_back_what_is_not_true((rows - 1) as nat, guard);
        let all = Seq::new(rows, |i: int| guard->0[i]);
        assert(all.drop_last() =~= Seq::new((rows - 1) as nat, |i: int| guard->0[i]));
    }
}

proof fn lemma_schema_members()
    ensures
        "type"@ != "properties"@ && "type"@ != "required"@ && "type"@ != "additionalProperties"@,
        "properties"@ != "required"@ && "properties"@ != "additionalProperties"@ && "required"@
            != "additionalProperties"@,
{
    reveal_strlit("type");
    reveal_strlit("properties");
    reveal_strlit("required");
    reveal_strlit("additionalProperties");
    assert("type"@.len() == 4 && "properties"@.len() == 10);
    assert("required"@.len() == 8 && "additionalProperties"@.len() == 20);
}

/// A closed schema is that of an object with the members that it lists, all of them
/// required, and with no others.
pub proof fn a_closed_schema_admits_no_other_member(
    properties: Map<Seq<char>, Json>,
    required: Seq<Seq<char>>,
    k: int,
)
    ensures
        ({
            let schema = closed_object_schema(properties, required);
            &&& schema.member("type"@) == Some(Json::Text("object"@))
            &&& schema.member("properties"@) == Some(Json::Object(properties))
            &&& schema.member("additionalProperties"@) == Some(Json::Bool(false))
            &&& schema.member("required"@) matches Some(Json::Array(names)) && names.len()
                == required.len() && (0 <= k < required.len() ==> names[k] == Json::Text(
                required[k],
            ))
        }),
{
    lemma_schema_members();
}

/// The answer to a fused request holds a verdict on each of its conditions and
/// nothing else: each has a boolean under its own key, and is required.
pub proof fn a_fused_answer_holds_every_verdict(count: nat, i: nat, key: Seq<char>)
    ensures
        branch_properties(count).contains_key(key) <==> exists|b: nat|
            b < count && #[trigger] branch_key(b) == key,
        i < count ==> branch_properties(count).contains_key(branch_key(i)) && branch_properties(
            count,
        )[branch_key(i)].member("type"@) == Some(Json::Text("boolean"@)),
        fused_schema(count).member("properties"@) == Some(Json::Object(branch_properties(count))),
        fused_schema(count).member("additionalProperties"@) == Some(Json::Bool(false)),
        fused_schema(count).member("required"@) matches Some(Json::Array(names)) && names.len()
            == count && (i < count ==> names[i as int] == Json::Text(branch_key(i))),
    decreases count,
{
    let required = Seq::new(count, |b: int| branch_key(b as nat));
    a_closed_schema_admits_no_other_member(branch_properties(count), required, i as int);
    if count > 0 {
        let last = (count - 1) as nat;
        a_fused_answer_holds_every_verdict(last, i, key);
        if branch_properties(count).contains_key(key) && key != branch_key(last) {
            let b = choose|b: nat| b < last && #[trigger] branch_key(b) == key;
            assert(b < count && branch_key(b) == key);
        }
    }
}

/// Each row without one usable verdict is counted as failed, and nothing of it is
/// kept; in a row with one, each condition without is counted.
pub proof fn every_failure_is_counted(
    s: &Classifier,
    t: ClassifyState,
    pending: Seq<PendingView>,
    answers: Seq<Option<Seq<char>>>,
    said: Seq<Option<bool>>,
    n: nat,
)
    requires
        pending.len() == answers.len(),
        n <= said.len(),
    ensures
        s.rows_applied(t, pending, answers).rows_failed <= t.rows_failed + answers.len(),
        answers.len() > 0 ==> ({
            let before = s.rows_applied(t, pending.drop_last(), answers.drop_last());
            let after = s.rows_applied(t, pending, answers);
            let p = pending.last();
            let usable = answers.last() is Some && exists|i: int|
                0 <= i < Classifier::decoded(p.pending.len(), answers.last()->0).len() && (
                #[trigger] Classifier::decoded(p.pending.len(), answers.last()->0)[i]) is Some;
            &&& usable ==> after.rows_failed == before.rows_failed
            &&& !usable ==> after.rows_failed == before.rows_failed + 1 && after.verdicts
                == before.verdicts && after.cache == before.cache && after.branches_failed
                == before.branches_failed
        }),
        pending.len() > 0 ==> s.branches_applied(t, pending[0], said, n).branches_failed
            == t.branches_failed + said.take(n as int).filter(
            |v: Option<bool>| v is None,
        ).len(),
    decreases answers.len(),
{
    if pending.len() > 0 {
        lemma_failed_branches(s, t, pending[0], said, n);
    }
    if answers.len() > 0 {
        let (p, a) = (pending.drop_last(), answers.drop_last());
        every_failure_is_counted(s, t, p, a, said, n);
        let before = s.rows_applied(t, p, a);
        let last = pending.last();
        if let Some(text) = answers.last() {
            let own = Classifier::decoded(last.pending.len(), text);
            lemma_failed_branches(s, before, last, own, own.len());
        }
    }
}

proof fn lemma_failed_branches(
    s: &Classifier,
    t: ClassifyState,
    p: PendingView,
    said: Seq<Option<bool>>,
    n: nat,
)
    requires
        n <= said.len(),
    ensures
        s.branches_applied(t, p, said, n).rows_failed == t.rows_failed,
        s.branches_applied(t, p, said, n).branches_failed == t.branches_failed + said.take(
            n as int,
        ).filter(|v: Option<bool>| v is None).len(),
    decreases n,
{
    reveal(Seq::filter);
    if n > 0 {
        lemma_failed_branches(s, t, p, said, (n - 1) as nat);
        assert(said.take(n as int).drop_last() =~= said.take(n - 1));
    }
}

}
