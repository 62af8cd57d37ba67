use std::collections::{HashMap, HashSet};
use std::hash::{DefaultHasher, Hash, Hasher};

use semcast::cache::{hash_input, hash_list, CacheKey, CachedValue, InMemoryCache, SemanticCache};
use semcast::error::SemcastError;
use semcast::index::kmeans::Clustering;
use semcast::index::{doc_hash, ChunkHit, SearchParams};
use semcast::model::{Answer, Completion, ModelId};
use semcast::number::{Double, Single};
use semcast::physical::bill::{
    classify_line, cluster_line, distinct_line, extract_line, index_scan_line, rank_line,
    verify_line, Floor, Rows,
};
use semcast::physical::classify::{
    classify_schema, guard_allows, synthesize_classify_prompt, Classifier,
};
use semcast::physical::cluster::{
    collect_documents, deduplicate, document_labels, fallback_name, label_schema,
    ordered_documents, parse_label, synthesize_label_prompt, with_labels, Grouper,
};
use semcast::physical::distinct::{format_key, group_keys, with_keys};
use semcast::physical::extract::{
    parse_json_object, scalar_from_normalized, strip_code_fence, validate_field, Extractor, Unit,
};
use semcast::physical::index_scan::{
    best_scores, bucket_chunks, calibrated_prefilter, row_fate, scan_batch, score_sample,
    unfloored, ChunkEvidence, Fate, Label, Labeler, PrefilterResult,
};
use semcast::physical::rank::{
    bucket_candidates, parse_score, relevance_cache_key, score_schema,
    synthesize_relevance_prompt, Ranker,
};
use semcast::physical::verify::{
    means_cache_key, parse_verdict, synthesize_means_prompt, synthesize_means_prompt_chunked,
    Verifier, CHUNK_SEPARATOR, MEANS_PROMPT_VERSION,
};
use semcast::types::{generation_units, FieldSpec, FieldType, Scalar};
use serde_json::Value;

fn json(text: &str) -> Value {
    serde_json::from_str(text).unwrap()
}

fn model() -> ModelId {
    ModelId("mock".to_owned())
}

fn single(x: f32) -> Single {
    Single { bits: x.to_bits() }
}

fn double(x: f64) -> Double {
    Double { bits: x.to_bits() }
}

fn texts(values: &[Option<&str>]) -> Vec<Option<String>> {
    values.iter().map(|v| v.map(str::to_owned)).collect()
}

fn said(text: &str) -> Answer {
    Ok(Completion {
        text: text.to_owned(),
        input_tokens: 1,
        output_tokens: 1,
    })
}

fn failed() -> Answer {
    Err(SemcastError::Model("down".to_owned()))
}

fn hit(doc: u64, chunk: usize, score: f32, text: &str) -> ChunkHit {
    ChunkHit {
        doc_hash: doc,
        chunk_index: chunk,
        score: single(score),
        text: text.to_owned(),
    }
}

#[test]
fn schema_requires_one_boolean_per_pending_condition() {
    let schema = classify_schema(2);
    assert_eq!(schema["properties"]["c0"]["type"], "boolean");
    assert_eq!(schema["properties"]["c1"]["type"], "boolean");
    assert_eq!(schema["required"], json(r#"["c0", "c1"]"#));
    assert_eq!(schema["additionalProperties"], json("false"));
}

#[test]
fn fused_prompt_numbers_every_condition() {
    let prompt = synthesize_classify_prompt(&["is angry", "asks about pricing"]);
    assert!(prompt.contains("c0: is angry"), "{prompt}");
    assert!(prompt.contains("c1: asks about pricing"), "{prompt}");
    assert!(prompt.contains("any number of them may hold"), "{prompt}");
}

#[test]
fn a_guard_admits_only_definite_truth() {
    let guard = vec![Some(true), Some(false), None];
    assert!(guard_allows(Some(&guard), 0));
    assert!(!guard_allows(Some(&guard), 1));
    assert!(!guard_allows(Some(&guard), 2), "NULL is not a match");
    assert!(guard_allows(None, 0), "no guard admits everything");
}

#[test]
fn one_call_answers_every_condition_of_a_row() {
    let classifier = Classifier {
        conditions: vec!["angry".to_owned(), "pricing".to_owned()],
        model_id: model(),
    };
    let mut cache = InMemoryCache::new();
    let rows = texts(&[Some("x"), None, Some("y")]);
    let guard = vec![Some(true), Some(true), Some(false)];
    let plan = classifier.plan_batch(&rows, Some(&guard), &cache);
    assert_eq!(plan.requests.len(), 1);
    assert_eq!(plan.requests[0].input, "x");
    assert_eq!(plan.requests[0].schema, Some(classify_schema(2)));
    assert_eq!(plan.rows_gated, 1);
    let outcome = classifier.apply(plan, &vec![said(r#"{"c0": true, "c1": "no"}"#)], &mut cache);
    assert_eq!(
        outcome.verdicts,
        vec![
            vec![Some(true), Some(false), Some(false)],
            vec![None, Some(false), Some(false)],
        ],
        "a row without text, or that the guard holds back, satisfies nothing"
    );
    assert_eq!(outcome.branches_failed, 1);
    assert_eq!(outcome.rows_failed, 0);

    // What was answered is remembered; the condition that was not is asked alone.
    let plan = classifier.plan_batch(&rows, Some(&guard), &cache);
    assert_eq!(plan.cache_hits, 1);
    assert_eq!(plan.requests[0].schema, None);
    assert_eq!(plan.requests[0].system, synthesize_means_prompt("pricing"));
    let outcome = classifier.apply(plan, &vec![failed()], &mut cache);
    assert_eq!(outcome.rows_failed, 1);
    assert_eq!(outcome.verdicts[0][0], Some(true));
}

#[test]
fn parses_a_label_object() {
    assert_eq!(
        parse_label(r#"{"label": "billing complaints"}"#),
        Some("billing complaints".to_owned())
    );
    assert_eq!(
        parse_label("```json\n{\"label\": \"launch planning\"}\n```"),
        Some("launch planning".to_owned())
    );
}

#[test]
fn unusable_labels_are_none() {
    assert_eq!(parse_label("billing complaints"), None);
    assert_eq!(parse_label(r#"{"name": "x"}"#), None);
    assert_eq!(
        parse_label(r#"{"label": "   "}"#),
        None,
        "blank is unusable"
    );
}

#[test]
fn duplicate_labels_are_numbered_apart() {
    assert_eq!(
        deduplicate(vec![
            "billing".to_owned(),
            "launch".to_owned(),
            "billing".to_owned(),
            "billing".to_owned(),
        ]),
        vec!["billing", "launch", "billing (2)", "billing (3)"]
    );
}

#[test]
fn two_groups_never_share_a_label() {
    let labels = |names: &[&str]| deduplicate(names.iter().map(|n| (*n).to_owned()).collect());
    assert_eq!(labels(&["a", "a", "a (2)"]), vec!["a", "a (2)", "a (2) (2)"]);
    assert_eq!(labels(&["a (2)", "a", "a"]), vec!["a (2)", "a", "a (3)"]);
    assert_eq!(labels(&["b", "a", "a (2)"]), vec!["b", "a", "a (2)"]);
    assert_eq!(labels(&[]), Vec::<String>::new());
}

#[test]
fn a_group_that_cannot_be_named_still_has_one() {
    assert_eq!(fallback_name(0), "group 1");
    assert_eq!(fallback_name(3), "group 4");
}

#[test]
fn groups_are_named_once() {
    let indexed: HashSet<u64> = [doc_hash("a"), doc_hash("b")].into_iter().collect();
    let docs = ordered_documents(&texts(&[Some("b"), Some("new"), None, Some("a")]), &indexed);
    assert_eq!(docs.hashes, vec![doc_hash("a"), doc_hash("b")], "in an order of their own");
    let rows = texts(&[Some("b"), Some("a"), Some("b")]);
    assert_eq!(
        collect_documents(&rows, &indexed).hashes,
        vec![doc_hash("b"), doc_hash("a")],
        "in the order of the rows"
    );
    assert_eq!(docs.unindexed_rows, 1);

    let clustering = Clustering {
        assignments: vec![0, 1],
        k: 2,
    };
    let reps: HashMap<usize, Vec<usize>> = [(0, vec![0]), (1, vec![1])].into_iter().collect();
    let grouper = Grouper { model_id: model() };
    let mut cache = InMemoryCache::new();
    let plan = grouper.plan_names(&docs.hashes, &docs.texts, &clustering, &reps, &cache);
    assert_eq!(plan.requests.len(), 2);
    assert_eq!(plan.requests[0].input, "a");
    assert_eq!(plan.requests[0].system, synthesize_label_prompt());
    assert_eq!(plan.requests[0].schema, Some(label_schema()));
    let outcome = grouper.apply(
        plan,
        &vec![said(r#"{"label": "billing"}"#), said("no idea")],
        &mut cache,
    );
    assert_eq!(outcome.names, vec!["billing", "group 2"]);
    assert_eq!(outcome.labels_failed, 1);

    let again = grouper.plan_names(&docs.hashes, &docs.texts, &clustering, &reps, &cache);
    assert_eq!(again.cache_hits, 1);
    assert_eq!(again.requests.len(), 1);

    let labels = document_labels(&docs.hashes, &clustering, &outcome.names);
    assert_eq!(
        with_labels(&labels, &texts(&[Some("b"), Some("new"), None])),
        texts(&[Some("group 2"), None, None])
    );
}

#[test]
fn keys_are_fixed_width_hex() {
    assert_eq!(format_key(0), "0000000000000000");
    assert_eq!(format_key(u64::MAX), "ffffffffffffffff");
    assert_eq!(format_key(1).len(), format_key(u64::MAX).len());
}

#[test]
fn duplicates_share_the_key_of_their_representative() {
    let hashes = vec![doc_hash("a"), doc_hash("b"), doc_hash("c")];
    let outcome = group_keys(&hashes, &vec![0, 0, 2]);
    assert_eq!(outcome.groups, 2);
    assert_eq!(outcome.duplicate_rows, 1);
    let first = format_key(doc_hash("a"));
    assert_eq!(
        with_keys(&outcome.keys, &texts(&[Some("b"), Some("new"), None])),
        vec![Some(first), Some(format_key(doc_hash("new"))), None],
        "a document that the index has never seen is its own"
    );
}

#[test]
fn buckets_keep_the_best_candidates_and_their_chunks() {
    let hits = vec![
        hit(1, 0, 0.9, "a1"),
        hit(2, 0, 0.8, "b1"),
        hit(1, 1, 0.7, "a2"),
        hit(3, 0, 0.6, "c1"),
    ];
    let buckets = bucket_candidates(&hits, 2, 3);
    assert_eq!(buckets.len(), 2, "third document is over the candidate cap");
    assert_eq!(buckets[&1], vec!["a1", "a2"]);
    assert_eq!(buckets[&2], vec!["b1"]);
    assert!(!buckets.contains_key(&3));
}

#[test]
fn buckets_cap_chunks_per_document() {
    let hits = vec![
        hit(1, 0, 0.9, "a1"),
        hit(1, 1, 0.8, "a2"),
        hit(1, 2, 0.7, "a3"),
    ];
    assert_eq!(bucket_candidates(&hits, 4, 2)[&1], vec!["a1", "a2"]);
}

#[test]
fn parses_a_score_object() {
    assert_eq!(parse_score(r#"{"score": 0.75}"#), Some(double(0.75)));
    assert_eq!(parse_score("```json\n{\"score\": 1}\n```"), Some(double(1.0)));
}

#[test]
fn clamps_out_of_range_scores() {
    assert_eq!(parse_score(r#"{"score": 1.4}"#), Some(double(1.0)));
    assert_eq!(parse_score(r#"{"score": -2}"#), Some(double(0.0)));
}

#[test]
fn unusable_answers_are_none() {
    assert_eq!(parse_score("very relevant"), None);
    assert_eq!(parse_score(r#"{"relevance": 0.5}"#), None);
    assert_eq!(parse_score(r#"{"score": "high"}"#), None);
}

#[test]
fn candidates_are_scored_once() {
    let ranker = Ranker {
        query: "pricing".to_owned(),
        candidates: 2,
        chunks_per_doc: 3,
        model_id: model(),
    };
    let params = ranker.search_params();
    assert_eq!(params.fetch_k, 6);
    assert_eq!(f32::from_bits(params.score_floor.bits), f32::NEG_INFINITY);

    let evidence: HashMap<u64, Vec<String>> =
        [(doc_hash("a"), vec!["a1".to_owned(), "a2".to_owned()])]
            .into_iter()
            .collect();
    let indexed: HashSet<u64> = [doc_hash("a"), doc_hash("b")].into_iter().collect();
    let column = texts(&[Some("a"), Some("b"), Some("new"), None, Some("a")]);
    let kept = Ranker::keep_candidates(&evidence, &indexed, &column);
    assert_eq!(kept.keep, vec![true, false, false, false, true]);
    assert_eq!(
        (kept.candidate_rows, kept.rows_pruned, kept.unindexed_rows),
        (2, 2, 1)
    );

    let mut cache = InMemoryCache::new();
    let plan = ranker.plan_scores(&evidence, &texts(&[Some("a"), Some("a")]), &cache);
    assert_eq!(plan.requests.len(), 1, "one call per document");
    assert_eq!(plan.requests[0].input, "a1\n---\na2");
    assert_eq!(plan.requests[0].schema, Some(score_schema()));
    assert_eq!(plan.requests[0].system, synthesize_relevance_prompt("pricing"));
    let outcome = ranker.apply(plan, &vec![said(r#"{"score": 0.1}"#)], &mut cache);
    assert_eq!(outcome.scores[&doc_hash("a")], double(0.1));

    let again = ranker.plan_scores(&evidence, &texts(&[Some("a")]), &cache);
    assert_eq!(again.cache_hits, 1);
    assert!(again.requests.is_empty());
    assert_eq!(
        again.scores[&doc_hash("a")],
        double(0.1),
        "a score comes back from the cache as it was"
    );
    assert_eq!(
        Ranker::with_scores(&again.scores, &texts(&[Some("a"), Some("b"), None])),
        vec![Some(double(0.1)), None, None]
    );
}

#[test]
fn the_first_score_of_an_excerpt_stands() {
    let ranker = Ranker {
        query: "q".to_owned(),
        candidates: 2,
        chunks_per_doc: 1,
        model_id: model(),
    };
    let evidence: HashMap<u64, Vec<String>> = [
        (doc_hash("a"), vec!["same".to_owned()]),
        (doc_hash("b"), vec!["same".to_owned()]),
    ]
    .into_iter()
    .collect();
    let mut cache = InMemoryCache::new();
    let rows = texts(&[Some("a"), Some("b")]);
    let plan = ranker.plan_scores(&evidence, &rows, &cache);
    assert_eq!(plan.requests.len(), 2);
    let answers = vec![said(r#"{"score": 0.9}"#), said(r#"{"score": 0.1}"#)];
    let outcome = ranker.apply(plan, &answers, &mut cache);
    assert_eq!(outcome.rows_failed, 0);
    assert_eq!(outcome.scores.get(&doc_hash("a")), Some(&double(0.9)));
    assert_eq!(outcome.scores.get(&doc_hash("b")), Some(&double(0.9)));
    let again = ranker.plan_scores(&evidence, &rows, &cache);
    assert!(again.requests.is_empty());
    assert_eq!(again.scores, outcome.scores);
}

#[test]
fn a_score_that_fails_leaves_a_null() {
    let ranker = Ranker {
        query: "q".to_owned(),
        candidates: 1,
        chunks_per_doc: 1,
        model_id: model(),
    };
    let evidence: HashMap<u64, Vec<String>> =
        [(doc_hash("a"), vec!["a1".to_owned()])].into_iter().collect();
    let mut cache = InMemoryCache::new();
    let plan = ranker.plan_scores(&evidence, &texts(&[Some("a")]), &cache);
    let outcome = ranker.apply(plan, &vec![failed()], &mut cache);
    assert_eq!(outcome.rows_failed, 1);
    assert!(outcome.scores.is_empty());
    let key = relevance_cache_key("q", "a1", &model());
    assert!(matches!(cache.get(&key), Some(CachedValue::Error(_)) | None));
}

#[test]
fn verdicts_are_one_word() {
    assert_eq!(parse_verdict(" Yes.\n"), Some(true));
    assert_eq!(parse_verdict("\"NO\""), Some(false));
    assert_eq!(parse_verdict("yes, because"), None);
    assert_eq!(parse_verdict(""), None);
}

#[test]
fn rows_fail_and_queries_do_not() {
    let verifier = Verifier::new("ships offline sync", &model());
    let mut cache = InMemoryCache::new();
    let rows = texts(&[Some("a"), None, Some("b"), Some("c")]);
    let plan = verifier.plan_batch(&rows, &ChunkEvidence::new(), &cache);
    assert_eq!(plan.requests.len(), 3, "a NULL needs no model");
    assert_eq!(
        plan.requests[0].system,
        synthesize_means_prompt("ships offline sync")
    );
    let outcome = verifier.apply(plan, &vec![said("yes"), said("no"), failed()], &mut cache);
    assert_eq!(outcome.keep, vec![true, false, false, false]);

    // A verdict is paid for once; a failure is asked again.
    let plan = verifier.plan_batch(&rows, &ChunkEvidence::new(), &cache);
    assert_eq!(plan.cache_hits, 2);
    assert_eq!(plan.requests.len(), 1);
    assert_eq!(plan.requests[0].input, "c");
    let outcome = verifier.apply(plan, &vec![said("yes")], &mut cache);
    assert_eq!(outcome.keep, vec![true, false, false, true]);
}

#[test]
fn the_first_verdict_on_a_text_stands() {
    let verifier = Verifier::new("c", &model());
    let mut cache = InMemoryCache::new();
    let rows = texts(&[Some("x"), Some("x"), Some("y")]);
    let plan = verifier.plan_batch(&rows, &ChunkEvidence::new(), &cache);
    assert_eq!(plan.requests.len(), 3);
    let outcome = verifier.apply(plan, &vec![said("yes"), said("no"), said("no")], &mut cache);
    assert_eq!(outcome.keep, vec![true, true, false]);
    let again = verifier.plan_batch(&rows, &ChunkEvidence::new(), &cache);
    assert!(again.requests.is_empty());
    let outcome = verifier.apply(again, &Vec::new(), &mut cache);
    assert_eq!(outcome.keep, vec![true, true, false]);
}

#[test]
fn verification_reads_the_chunks_that_the_index_found() {
    let chunks: HashMap<u64, Vec<String>> = [(
        doc_hash("long text"),
        vec!["one".to_owned(), "two".to_owned()],
    )]
    .into_iter()
    .collect();
    let evidence = ChunkEvidence::filled(PrefilterResult {
        chunks,
        indexed: HashSet::new(),
    });
    assert_eq!(
        evidence.chunks_for(doc_hash("long text")),
        Some(&vec!["one".to_owned(), "two".to_owned()])
    );
    assert_eq!(evidence.chunks_for(7), None);
    let verifier = Verifier::new("c", &model());
    let plan = verifier.plan_batch(&texts(&[Some("long text")]), &evidence, &InMemoryCache::new());
    assert_eq!(plan.requests[0].input, format!("one{CHUNK_SEPARATOR}two"));
    assert_eq!(plan.requests[0].system, synthesize_means_prompt_chunked("c"));
}

#[test]
fn a_cache_remembers_by_provenance() {
    let mut cache = InMemoryCache::default();
    let key = means_cache_key("c", "text", &model(), MEANS_PROMPT_VERSION);
    assert_eq!(cache.get(&key), None);
    cache.put(key.clone(), CachedValue::Value("yes".to_owned()));
    assert_eq!(cache.get(&key), Some(CachedValue::Value("yes".to_owned())));
    let other = CacheKey {
        prompt_version: "means-v9".to_owned(),
        ..key.clone()
    };
    assert_eq!(cache.get(&other), None);
    cache.put(key.clone(), CachedValue::Error("down".to_owned()));
    assert_eq!(cache.get(&key), Some(CachedValue::Error("down".to_owned())));
}

#[test]
fn cache_hashes_are_those_of_the_default_hasher() {
    let mut hasher = DefaultHasher::new();
    "some text".hash(&mut hasher);
    assert_eq!(hash_input("some text"), hasher.finish());
    assert_ne!(hash_input("some text"), hash_input("some texts"));
    let list = vec![1u64, u64::MAX, 7];
    if usize::BITS == 64 && 1u16.to_ne_bytes() == [1, 0] {
        let mut hasher = DefaultHasher::new();
        list.hash(&mut hasher);
        assert_eq!(hash_list(&list), hasher.finish());
    }
    assert_ne!(hash_list(&list), hash_list(&vec![1u64, 7, u64::MAX]));
}

#[test]
fn fences_are_stripped_from_answers() {
    assert_eq!(strip_code_fence("```json\n{}\n```"), "{}");
    assert_eq!(strip_code_fence("{}"), "{}");
    assert_eq!(parse_json_object(" {\"a\": 1} "), Some(json(r#"{"a": 1}"#)));
    assert_eq!(parse_json_object("[1]"), None, "no object");
    assert_eq!(parse_json_object("{"), None);
}

fn words(list: &[&str]) -> Vec<String> {
    list.iter().map(|w| w.to_string()).collect()
}

#[test]
fn fields_take_what_fits_their_type() {
    let fits = |ty: FieldType, value: &str| validate_field(&ty, &json(value));
    assert_eq!(fits(FieldType::Text, r#""x""#), Some(json(r#""x""#)));
    assert_eq!(fits(FieldType::Text, "1"), None);
    assert_eq!(fits(FieldType::Int, "-3"), Some(json("-3")));
    assert_eq!(fits(FieldType::Int, "3.5"), None);
    assert_eq!(fits(FieldType::Real, "2"), Some(json("2.0")));
    assert_eq!(fits(FieldType::Bool, "true"), Some(json("true")));
    assert_eq!(fits(FieldType::Bool, r#""true""#), None);
    let bounded = || FieldType::RealBounded {
        min: double(0.0),
        max: double(1.0),
    };
    assert_eq!(fits(bounded(), "0.5"), Some(json("0.5")));
    assert_eq!(fits(bounded(), "1.5"), None);
    let level = || FieldType::Level(words(&["Low", "High"]));
    assert_eq!(fits(level(), r#""HIGH""#), Some(json(r#""High""#)));
    assert_eq!(fits(level(), r#""other""#), None);
    let list = FieldType::List(Box::new(FieldType::Int));
    assert_eq!(fits(list, r#"[1, "x", 2]"#), Some(json("[1, 2]")));
    assert_eq!(fits(FieldType::Nested("t".to_owned()), "{}"), None);
}

#[test]
fn normalized_values_become_scalars() {
    let scalar = |ty: FieldType, value: &str| scalar_from_normalized(&ty, &json(value));
    assert!(matches!(scalar(FieldType::Int, "4"), Scalar::Int(4)));
    assert!(matches!(scalar(FieldType::Real, "0.5"), Scalar::Real(d) if d == double(0.5)));
    assert!(matches!(scalar(FieldType::Bool, "1"), Scalar::Null));
    let list = FieldType::List(Box::new(FieldType::Text));
    assert!(matches!(
        scalar(list, r#"["a", "b"]"#),
        Scalar::List(items) if items.len() == 2
    ));
}

fn field(name: &str, ty: FieldType) -> FieldSpec {
    FieldSpec {
        name: name.to_owned(),
        ty,
        doc: String::new(),
    }
}

#[test]
fn fields_fail_one_by_one() {
    let extractor = Extractor {
        target_name: "Meeting".to_owned(),
        fields: vec![
            field("topic", FieldType::Text),
            field("size", FieldType::Int),
            field("cost", FieldType::Int),
        ],
        units: vec![
            Unit {
                members: vec![0],
                hash: 1,
            },
            Unit {
                members: vec![1, 2],
                hash: 2,
            },
        ],
        model_id: model(),
        prompt_version: "extract-v1".to_owned(),
    };
    let mut cache = InMemoryCache::new();
    let rows = texts(&[Some("x"), None]);
    let plan = extractor.plan_batch(&rows, &cache);
    assert_eq!(plan.requests.len(), 1);
    assert_eq!(plan.requests[0].fields, vec!["topic", "size", "cost"]);
    let answer = said(r#"{"topic": "sync", "size": 3, "cost": "dear"}"#);
    let outcome = extractor.apply(plan, &vec![answer], &mut cache);
    assert!(matches!(&outcome.columns[0][0], Scalar::Text(t) if t == "sync"));
    assert!(matches!(outcome.columns[1][0], Scalar::Int(3)));
    assert!(matches!(outcome.columns[2][0], Scalar::Null));
    assert!(matches!(outcome.columns[0][1], Scalar::Null), "NULL in, NULL out");
    assert_eq!(outcome.rows_failed, 0);
    assert_eq!(outcome.fields_failed, 1);

    let plan = extractor.plan_batch(&rows, &cache);
    assert!(plan.requests.len() <= 1);
    let down = plan.requests.iter().map(|_| failed()).collect();
    let failed = plan.requests.len();
    let outcome = extractor.apply(plan, &down, &mut cache);
    assert_eq!(outcome.rows_failed, failed);
    assert!(matches!(&outcome.columns[0][0], Scalar::Text(t) if t == "sync"));
}

#[test]
fn fields_that_stand_together_are_one_unit() {
    let fields = vec![
        field("products", FieldType::Text),
        field("launch_stage", FieldType::Text),
        field("decisions", FieldType::Text),
        field("stage_quote", FieldType::Text),
    ];
    let together = vec![words(&["launch_stage", "stage_quote"])];
    assert_eq!(
        generation_units(&fields, &together),
        vec![vec![0], vec![1, 3], vec![2]]
    );
    assert_eq!(
        generation_units(&fields, &Vec::new()),
        vec![vec![0], vec![1], vec![2], vec![3]]
    );
}

#[test]
fn an_extraction_is_paid_once() {
    let extractor = Extractor {
        target_name: "Meeting".to_owned(),
        fields: vec![
            field("title", FieldType::Text),
            field("tags", FieldType::List(Box::new(FieldType::Text))),
            field("size", FieldType::Int),
            field("open", FieldType::Bool),
        ],
        units: vec![
            Unit {
                members: vec![0, 1],
                hash: 1,
            },
            Unit {
                members: vec![2, 3],
                hash: 2,
            },
        ],
        model_id: model(),
        prompt_version: "extract-v1".to_owned(),
    };
    let mut cache = InMemoryCache::new();
    let rows = texts(&[Some("x"), Some("y")]);
    let plan = extractor.plan_batch(&rows, &cache);
    assert_eq!(plan.requests.len(), 2);
    let first = r#"{"title": "a \"b\"\n\u0001", "tags": ["c", 7, "\u00e9"], "size": -3, "open": true}"#;
    let second = r#"{"title": "", "tags": [], "size": 9223372036854775807, "open": false}"#;
    let outcome = extractor.apply(plan, &vec![said(first), said(second)], &mut cache);
    assert_eq!(outcome.fields_failed, 0);

    let again = extractor.plan_batch(&rows, &cache);
    assert!(again.requests.is_empty());
    assert_eq!(again.cache_hits, 8);
    let read = extractor.apply(again, &Vec::new(), &mut cache);
    assert_eq!(format!("{:?}", read.columns), format!("{:?}", outcome.columns));
    assert!(matches!(&read.columns[0][0], Scalar::Text(t) if t == "a \"b\"\n\u{1}"));
    assert!(matches!(&read.columns[1][0], Scalar::List(tags) if tags.len() == 2));
    assert!(matches!(read.columns[2][1], Scalar::Int(i64::MAX)));
}

#[test]
fn a_classification_is_paid_once() {
    let classifier = Classifier {
        conditions: vec!["angry".to_owned(), "pricing".to_owned()],
        model_id: model(),
    };
    let mut cache = InMemoryCache::new();
    let rows = texts(&[Some("x"), Some("y")]);
    let plan = classifier.plan_batch(&rows, None, &cache);
    let answer = r#"{"c0": true, "c1": false}"#;
    let outcome = classifier.apply(plan, &vec![said(answer), said(answer)], &mut cache);
    let again = classifier.plan_batch(&rows, None, &cache);
    assert!(again.requests.is_empty());
    assert_eq!(again.cache_hits, 4);
    assert_eq!(again.verdicts, outcome.verdicts);
}

#[test]
fn the_first_classification_of_a_text_stands() {
    let classifier = Classifier {
        conditions: vec!["angry".to_owned(), "pricing".to_owned()],
        model_id: model(),
    };
    let mut cache = InMemoryCache::new();
    let rows = texts(&[Some("x"), Some("x")]);
    let plan = classifier.plan_batch(&rows, None, &cache);
    assert_eq!(plan.requests.len(), 2);
    let answers = vec![
        said(r#"{"c0": true, "c1": false}"#),
        said(r#"{"c0": false, "c1": true}"#),
    ];
    let outcome = classifier.apply(plan, &answers, &mut cache);
    assert_eq!(
        outcome.verdicts,
        vec![
            vec![Some(true), Some(true)],
            vec![Some(false), Some(false)],
        ]
    );
    let again = classifier.plan_batch(&rows, None, &cache);
    assert!(again.requests.is_empty());
    assert_eq!(again.verdicts, outcome.verdicts);
}

#[test]
fn the_first_extraction_of_a_text_stands() {
    let extractor = Extractor {
        target_name: "Meeting".to_owned(),
        fields: vec![field("topic", FieldType::Text), field("size", FieldType::Int)],
        units: vec![Unit {
            members: vec![0, 1],
            hash: 1,
        }],
        model_id: model(),
        prompt_version: "extract-v1".to_owned(),
    };
    let mut cache = InMemoryCache::new();
    let rows = texts(&[Some("x"), Some("x")]);
    let plan = extractor.plan_batch(&rows, &cache);
    assert_eq!(plan.requests.len(), 2);
    let answers = vec![
        said(r#"{"topic": "sync", "size": 3}"#),
        said(r#"{"topic": "lunch", "size": 4}"#),
    ];
    let outcome = extractor.apply(plan, &answers, &mut cache);
    assert_eq!((outcome.rows_failed, outcome.fields_failed), (0, 0));
    for row in 0..2 {
        assert!(matches!(&outcome.columns[0][row], Scalar::Text(t) if t == "sync"));
        assert!(matches!(outcome.columns[1][row], Scalar::Int(3)));
    }
    let again = extractor.plan_batch(&rows, &cache);
    assert!(again.requests.is_empty());
    assert_eq!(format!("{:?}", again.columns), format!("{:?}", outcome.columns));
}

#[test]
fn the_first_label_of_a_sampled_text_stands() {
    let labeler = Labeler {
        condition: "c".to_owned(),
        model_id: model(),
    };
    let mut cache = InMemoryCache::new();
    let sample = vec!["a".to_owned(), "a".to_owned()];
    let plan = labeler.plan_sample(&sample, &cache);
    let labels = labeler.apply(plan, &vec![said("no"), said("yes")], &mut cache);
    assert!(labels.iter().all(|l| !l.positive));
}

#[test]
fn a_group_that_was_named_keeps_its_name() {
    let indexed: HashSet<u64> = [doc_hash("a"), doc_hash("b")].into_iter().collect();
    let docs = ordered_documents(&texts(&[Some("a"), Some("b")]), &indexed);
    let clustering = Clustering {
        assignments: vec![0, 0],
        k: 1,
    };
    let reps: HashMap<usize, Vec<usize>> = [(0, vec![1])].into_iter().collect();
    let grouper = Grouper { model_id: model() };
    let mut cache = InMemoryCache::new();
    let plan = grouper.plan_names(&docs.hashes, &docs.texts, &clustering, &reps, &cache);
    let answers = vec![said(r#"{"label": "billing"}"#)];
    assert_eq!(grouper.apply(plan, &answers, &mut cache).names, vec!["billing"]);
    let again = grouper.plan_names(&docs.hashes, &docs.texts, &clustering, &reps, &cache);
    assert!(again.requests.is_empty());
    assert_eq!(again.names, vec!["billing"]);
}

#[test]
fn a_row_is_pruned_only_where_the_index_knows_it() {
    let hits = vec![hit(doc_hash("a"), 0, 0.9, "a1"), hit(doc_hash("b"), 0, 0.1, "b1")];
    let chunks = bucket_chunks(&hits, single(0.35), 3);
    let indexed: HashSet<u64> = [doc_hash("a"), doc_hash("b")].into_iter().collect();
    assert_eq!(row_fate(&Some("a".to_owned()), &chunks, &indexed), Fate::Hit);
    assert_eq!(row_fate(&None, &chunks, &indexed), Fate::Pruned);
    let result = PrefilterResult { chunks, indexed };
    let outcome = scan_batch(&result, &texts(&[Some("a"), Some("b"), Some("new"), None]));
    assert_eq!(outcome.keep, vec![true, false, true, false]);
    assert_eq!(
        (outcome.index_hits, outcome.rows_pruned, outcome.passthrough_rows),
        (1, 2, 1)
    );
}

#[test]
fn a_sample_is_labelled_on_the_full_text() {
    let labeler = Labeler {
        condition: "c".to_owned(),
        model_id: model(),
    };
    let mut cache = InMemoryCache::new();
    let sample = vec!["a".to_owned(), "b".to_owned(), "c".to_owned()];
    let plan = labeler.plan_sample(&sample, &cache);
    assert_eq!(plan.requests.len(), 3);
    let labels = labeler.apply(plan, &vec![said("yes"), said("no"), failed()], &mut cache);
    let got: Vec<(&str, bool)> = labels.iter().map(|l| (l.text.as_str(), l.positive)).collect();
    assert_eq!(got, vec![("a", true), ("b", false)]);
    let again = labeler.plan_sample(&sample, &cache);
    assert_eq!(again.labels.len(), 2);
    assert_eq!(again.misses, vec!["c"]);
}

#[test]
fn a_sample_raises_the_floor() {
    let label = |text: &str| Label {
        text: text.to_owned(),
        positive: true,
    };
    let hits = vec![
        hit(doc_hash("a"), 0, 0.9, "a1"),
        hit(doc_hash("b"), 0, 0.6, "b1"),
        hit(doc_hash("a"), 1, 0.5, "a2"),
    ];
    assert_eq!(best_scores(&hits)[&doc_hash("a")], single(0.9));
    let indexed: HashSet<u64> = [doc_hash("a"), doc_hash("b"), doc_hash("lost")]
        .into_iter()
        .collect();
    let labels = vec![label("a"), label("b"), label("lost"), label("new")];
    let scores = score_sample(&labels, &hits, &indexed);
    assert_eq!(scores.sampled, 4);
    assert_eq!(scores.positive_scores, vec![single(0.9), single(0.6)]);
    assert_eq!((scores.positive_lost, scores.positive_unindexed), (1, 1));
    let params = SearchParams::default();
    let (result, calibration) = calibrated_prefilter(&hits, indexed, &scores, 2, &params);
    assert_eq!(calibration.threshold, single(0.9));
    assert_eq!((calibration.kept, calibration.total), (2, 4));
    assert!(!result.chunks.contains_key(&doc_hash("b")));
    assert_eq!(
        f32::from_bits(unfloored(&params).score_floor.bits),
        f32::NEG_INFINITY
    );
}

#[test]
fn the_bill_stands_in_the_plan() {
    let model = ModelId("m".to_owned());
    let embed = ModelId("e".to_owned());
    assert_eq!(
        verify_line("c", &model, Some(3), Rows::Exact(7)),
        "VerifyExec: MEANS('c') model=m reads top-3 chunks per doc   \u{2264}7 model calls"
    );
    assert_eq!(
        verify_line("c", &model, None, Rows::Absent),
        "VerifyExec: MEANS('c') model=m   model calls unknown"
    );
    assert_eq!(
        index_scan_line("c", &embed, &Floor::Fixed("0.35"), 3),
        "IndexScanExec: MEANS('c') embed_model=e floor=0.35 top-3 chunks \
         (threshold best-effort \u{2014} no WITH RECALL)"
    );
    let floor = Floor::Calibrated {
        recall: "0.90",
        sample: 64,
    };
    assert_eq!(
        index_scan_line("c", &embed, &floor, 3),
        "IndexScanExec: MEANS('c') embed_model=e \
         floor=calibrated(recall\u{2265}0.90, sample\u{2264}64) top-3 chunks"
    );
    assert_eq!(
        classify_line(2, &model, true, Rows::Inexact(9)),
        "SemClassifyExec: 2 condition(s) model=m gated   ~9 model calls"
    );
    assert_eq!(
        extract_line("Meeting", 4, &model, Rows::Exact(1)),
        "SemExtractExec: Meeting [4 field(s)] model=m   \u{2264}1 model calls"
    );
    assert_eq!(
        cluster_line(Some(5), &embed, &model),
        "SemClusterExec: MEANING OF INTO 5   \u{2264}5 model calls embed_model=e model=m"
    );
    assert_eq!(
        cluster_line(None, &embed, &model),
        "SemClusterExec: MEANING OF INTO auto (sweeping [2, 4, 8, 16, 32])   \u{2264}32 model \
         calls embed_model=e model=m"
    );
    assert_eq!(
        distinct_line("0.90", &embed),
        "SemDistinctExec: SIMILARITY \u{2265} 0.90 embed_model=e   0 model calls"
    );
    assert_eq!(
        rank_line("q", &embed, &model, 3, 32),
        "SemRankExec: RELEVANCE TO 'q' embed_model=e model=m top-3 chunks   \u{2264}32 model calls"
    );
}

#[test]
fn a_scan_passes_on_no_more_than_it_fetches() {
    assert_eq!(Rows::Exact(9).capped(4), Rows::Inexact(4));
    assert_eq!(Rows::Inexact(3).capped(4), Rows::Inexact(3));
    assert_eq!(Rows::Absent.capped(4), Rows::Inexact(4));
}
