use semcast::error::SemcastError;
use semcast::index::dedupe::DEFAULT_SIMILARITY;
use semcast::index::registry::IndexRegistry;
use semcast::logical::expr::{conjunction, is_not_true, split_conjunction, Expr, Head};
use semcast::logical::node::{added_columns, with_exprs_and_inputs};
use semcast::logical::plan::{Inline, Op, Plan, PlanError};
use semcast::logical::sem_classify::{branch_column_name, explain_classify};
use semcast::logical::sem_cluster::{explain_cluster, label_column_name};
use semcast::logical::sem_distinct::{explain_distinct, key_column_name};
use semcast::logical::sem_extract::{explain_extract, output_column_name};
use semcast::logical::sem_filter::explain_filter;
use semcast::logical::sem_rank::{candidates, explain_rank, score_column_name};
use semcast::number::{Double, Single};
use semcast::optimizer::calibrate::{calibrate_threshold, Calibration, SampledScores};
use semcast::optimizer::classify::{rewrite_projection, NOTHING_TO_CALIBRATE};
use semcast::optimizer::cluster::{ClusterRewriteRule, NOT_A_GROUP_KEY};
use semcast::optimizer::distinct::{
    apply_similarity, DistinctRewriteRule, NO_SEMANTIC_DISTINCT,
};
use semcast::optimizer::extract::{ExtractRewriteRule, NOT_IN_SELECT};
use semcast::optimizer::rank::{
    find_fetch, RelevanceRewriteRule, NOT_IN_SELECT_OR_ORDER_BY, NO_LIMIT,
};
use semcast::optimizer::rewrite::{
    apply_recall, destructure_means, MeansRewriteRule, NOT_A_CONJUNCT, NO_MEANS,
};
use semcast::physical::planner::{column_behind_casts, resolve_index, FilterStages, Resolved};
use semcast::types::{FieldSpec, FieldType, SemanticType, TypeRegistry};

fn single(x: f32) -> Single {
    Single { bits: x.to_bits() }
}

fn scores(positive_scores: &[f32]) -> SampledScores {
    SampledScores {
        positive_scores: positive_scores.iter().map(|s| single(*s)).collect(),
        sampled: positive_scores.len(),
        ..SampledScores::new()
    }
}

fn calibrate(target_recall: f64, scores: &SampledScores) -> Calibration {
    let wanted = (target_recall * scores.total() as f64).ceil() as usize;
    calibrate_threshold(wanted, single(0.35), scores)
}

fn recall(calibration: &Calibration) -> f64 {
    if calibration.total == 0 {
        1.0
    } else {
        calibration.kept as f64 / calibration.total as f64
    }
}

#[test]
fn picks_the_kth_highest_positive_score() {
    let sample = scores(&[0.95, 0.9, 0.85, 0.8, 0.75, 0.7, 0.65, 0.6, 0.55, 0.5]);
    let calibration = calibrate(0.9, &sample);
    assert_eq!(calibration.threshold, single(0.55));
    assert_eq!(recall(&calibration), 0.9);
}

#[test]
fn full_recall_keeps_every_scored_positive() {
    let sample = scores(&[0.9, 0.2, 0.6]);
    let calibration = calibrate(1.0, &sample);
    assert_eq!(calibration.threshold, single(0.2));
    assert_eq!(recall(&calibration), 1.0);
}

#[test]
fn ties_at_the_threshold_survive() {
    let sample = scores(&[0.7, 0.7, 0.7, 0.4]);
    let calibration = calibrate(0.5, &sample);
    assert_eq!(calibration.threshold, single(0.7));
    assert_eq!(recall(&calibration), 0.75);
}

#[test]
fn high_scoring_positives_raise_the_floor() {
    let sample = scores(&[0.98, 0.97, 0.96]);
    let calibration = calibrate(0.9, &sample);
    assert_eq!(calibration.threshold, single(0.96));
}

#[test]
fn no_positives_falls_back_to_the_default_floor() {
    let sample = SampledScores {
        sampled: 12,
        ..SampledScores::new()
    };
    let calibration = calibrate(0.9, &sample);
    assert_eq!(calibration.threshold, single(0.35));
    assert_eq!(recall(&calibration), 1.0);
    assert_eq!(calibration.sampled_rows, 12);
}

#[test]
fn unindexed_positives_count_toward_the_target() {
    let sample = SampledScores {
        positive_scores: vec![single(0.4)],
        positive_unindexed: 9,
        sampled: 10,
        ..SampledScores::new()
    };
    let calibration = calibrate(0.9, &sample);
    assert_eq!(calibration.threshold, single(0.35));
    assert_eq!(recall(&calibration), 1.0);
}

#[test]
fn lost_positives_make_the_target_unachievable_but_honest() {
    let sample = SampledScores {
        positive_scores: vec![single(0.8)],
        positive_lost: 3,
        sampled: 8,
        ..SampledScores::new()
    };
    let calibration = calibrate(0.9, &sample);
    assert_eq!(calibration.threshold, single(0.8));
    assert_eq!(recall(&calibration), 0.25);
}

#[test]
fn negative_similarity_scores_are_kept_when_the_target_demands_it() {
    let sample = scores(&[0.6, -0.2]);
    let calibration = calibrate(1.0, &sample);
    assert_eq!(calibration.threshold, single(-0.2));
}

#[test]
fn numbers_compare_by_their_bits_as_floats_do() {
    let values = [
        0.0f64,
        -0.0,
        1.0,
        -1.0,
        1.5,
        f64::MIN_POSITIVE,
        f64::MAX,
        f64::INFINITY,
        f64::NEG_INFINITY,
        f64::NAN,
    ];
    for a in values {
        for b in values {
            let (x, y) = (Double { bits: a.to_bits() }, Double { bits: b.to_bits() });
            assert_eq!(x.le(y), a <= b, "{a} <= {b}");
            assert_eq!(x.lt(y), a < b, "{a} < {b}");
            let (a, b) = (a as f32, b as f32);
            assert_eq!(single(a).le(single(b)), a <= b, "{a} <= {b}");
            assert_eq!(single(a).lt(single(b)), a < b, "{a} < {b}");
            assert_eq!(
                single(a).total_le(single(b)),
                a.total_cmp(&b).is_le(),
                "{a} {b}"
            );
        }
    }
}

#[test]
fn errors_say_where_they_come_from() {
    assert_eq!(
        SemcastError::Calibration("no sample".to_owned()).text(),
        "calibration error: no sample"
    );
    assert_eq!(
        SemcastError::Index("gone".to_owned()).text(),
        "index error: gone"
    );
}

// ---- plans, written as text ----

fn col(name: &str) -> Expr {
    Expr {
        head: Head::Column(None, name.to_owned()),
        args: vec![],
    }
}

fn text(value: &str) -> Expr {
    Expr {
        head: Head::Text(value.to_owned()),
        args: vec![],
    }
}

fn float(value: f64) -> Expr {
    Expr {
        head: Head::Real(value.to_bits(), (value as f32).to_bits()),
        args: vec![],
    }
}

fn whole(value: i64) -> Expr {
    Expr {
        head: Head::Int(value),
        args: vec![],
    }
}

fn call(name: &str, args: Vec<Expr>) -> Expr {
    Expr {
        head: Head::Call(name.to_owned()),
        args,
    }
}

fn with(head: Head, args: Vec<Expr>) -> Expr {
    Expr { head, args }
}

fn means(column: &str, condition: &str) -> Expr {
    call("means", vec![col(column), text(condition)])
}

fn table() -> Plan {
    Plan {
        op: Op::Opaque(0),
        exprs: vec![],
        inputs: vec![],
    }
}

fn over(op: Op, exprs: Vec<Expr>, input: Plan) -> Plan {
    Plan {
        op,
        exprs,
        inputs: vec![input],
    }
}

fn shown(e: &Expr) -> String {
    let args: Vec<String> = e.args.iter().map(shown).collect();
    let args = args.join(", ");
    match &e.head {
        Head::Column(_, name) => name.clone(),
        Head::Text(value) => format!("'{value}'"),
        Head::Int(value) => value.to_string(),
        Head::Real(bits, _) => f64::from_bits(*bits).to_string(),
        Head::Call(name) => format!("{name}({args})"),
        Head::Case { .. } => format!("case({args})"),
        Head::And => format!("and({args})"),
        Head::IsNotTrue => format!("not_true({args})"),
        Head::Cast(_) => format!("cast({args})"),
        Head::Alias(name) => format!("{args} as {name}"),
        Head::NamedLike(other) => format!("{args} as [{}]", shown(other)),
        Head::Opaque(n) => format!("op{n}({args})"),
    }
}

fn drawn(p: &Plan) -> String {
    let exprs: Vec<String> = p.exprs.iter().map(shown).collect();
    let op = match &p.op {
        Op::Projection => "project".to_owned(),
        Op::Filter => "filter".to_owned(),
        Op::Aggregate { groups } => format!("group {groups}"),
        Op::Sort { .. } => "sort".to_owned(),
        Op::Limit { .. } => "limit".to_owned(),
        Op::DistinctOn { on } => format!("distinct on {on}"),
        Op::SemFilter { condition, .. } => format!("sem_filter '{condition}'"),
        Op::SemClassify {
            conditions,
            guarded,
            id,
        } => format!("sem_classify{id} {conditions:?} {guarded}"),
        Op::SemRank { query, limit, id } => format!("sem_rank{id} '{query}' {limit}"),
        Op::SemCluster { k, id } => format!("sem_cluster{id} {k:?}"),
        Op::SemDistinct { similarity, id } => {
            format!("sem_distinct{id} {}", f32::from_bits(*similarity))
        }
        Op::SemExtract {
            target, fields, id, ..
        } => format!("sem_extract{id} {target} {fields:?}"),
        Op::Opaque(_) => "table".to_owned(),
    };
    let inputs: Vec<String> = p.inputs.iter().map(drawn).collect();
    let mut out = op;
    if !exprs.is_empty() {
        out = format!("{out} [{}]", exprs.join(", "));
    }
    if !inputs.is_empty() {
        out = format!("{out} <- {}", inputs.join(" | "));
    }
    out
}

fn refused(r: Result<semcast::logical::plan::Transformed, PlanError>) -> String {
    match r {
        Ok(t) => panic!("accepted: {}", drawn(&t.plan)),
        Err(PlanError::Plan(m)) | Err(PlanError::Internal(m)) => m,
        Err(PlanError::Got(m, e)) => format!("{m}{}", shown(&e)),
        Err(PlanError::Around(before, after)) => format!("{before}NODE{after}"),
    }
}

fn accepted(r: Result<semcast::logical::plan::Transformed, PlanError>) -> String {
    match r {
        Ok(t) => {
            assert!(t.changed);
            drawn(&t.plan)
        }
        Err(e) => panic!("refused: {e:?}"),
    }
}

#[test]
fn means_is_split_out_of_the_conjunction() {
    let predicate = with(
        Head::And,
        vec![
            with(Head::And, vec![col("free"), means("body", "a")]),
            means("body", "b"),
        ],
    );
    let plan = over(Op::Filter, vec![predicate], table());
    assert_eq!(MeansRewriteRule.name(), "semcast_means_rewrite");
    assert_eq!(
        accepted(MeansRewriteRule.rewrite(plan)),
        "sem_filter 'b' [body] <- sem_filter 'a' [body] <- filter [free] <- table"
    );
    let alone = over(Op::Filter, vec![means("body", "a")], table());
    assert_eq!(
        accepted(MeansRewriteRule.rewrite(alone)),
        "sem_filter 'a' [body] <- table"
    );
}

#[test]
fn means_is_refused_where_it_cannot_be_split_out() {
    let or = with(Head::Opaque(1), vec![means("body", "a"), col("free")]);
    let plan = over(Op::Filter, vec![or], table());
    assert_eq!(refused(MeansRewriteRule.rewrite(plan)), NOT_A_CONJUNCT);
    let plan = over(Op::Sort { fetch: None }, vec![means("body", "a")], table());
    assert_eq!(
        refused(MeansRewriteRule.rewrite(plan)),
        "means() is only supported as a top-level AND conjunct of a WHERE clause (found it in a NODE node)"
    );
    let plan = over(
        Op::Filter,
        vec![call("means", vec![col("a"), col("b")])],
        table(),
    );
    assert_eq!(
        refused(MeansRewriteRule.rewrite(plan)),
        "the second argument of means() must be a string literal (the natural-language condition), got: b"
    );
    assert!(matches!(
        destructure_means(&call("means", vec![col("a")])),
        Err(PlanError::Plan(m)) if m == "means() takes exactly 2 arguments, got 1"
    ));
}

#[test]
fn a_recall_target_reaches_the_filters() {
    let both = with(Head::And, vec![means("body", "a"), means("body", "b")]);
    let plan = over(Op::Filter, vec![both], table());
    let plan = over(Op::Projection, vec![col("id")], plan);
    let mut attached = apply_recall(plan, 0.9f64.to_bits(), 0.9f32.to_bits()).unwrap();
    let filter = attached.inputs.remove(0);
    assert_eq!(
        shown(&filter.exprs[0]),
        "and(means(body, 'a', 0.9), means(body, 'b', 0.9))"
    );
    let rewritten = MeansRewriteRule.rewrite(filter).unwrap().plan;
    let target = Some(0.9f64.to_bits());
    assert!(matches!(&rewritten.op, Op::SemFilter { condition, recall }
        if condition == "b" && *recall == target));
    assert!(matches!(&rewritten.inputs[0].op, Op::SemFilter { condition, recall }
        if condition == "a" && *recall == target));

    let plain = over(Op::Filter, vec![means("body", "a")], table());
    let rewritten = MeansRewriteRule.rewrite(plain).unwrap().plan;
    assert!(matches!(rewritten.op, Op::SemFilter { recall: None, .. }));
    assert!(matches!(
        apply_recall(table(), 0, 0),
        Err(PlanError::Plan(m)) if m == NO_MEANS
    ));
    let odd = call("means", vec![col("a"), text("c"), text("d")]);
    assert!(matches!(
        destructure_means(&odd),
        Err(PlanError::Plan(m)) if m == "means() takes exactly 2 arguments, got 3"
    ));
}

#[test]
fn plans_without_markers_are_left_alone() {
    let plain = || over(Op::Filter, vec![col("free")], table());
    let same = |r: Result<semcast::logical::plan::Transformed, PlanError>| {
        let t = r.unwrap();
        !t.changed && drawn(&t.plan) == drawn(&plain())
    };
    assert!(same(MeansRewriteRule.rewrite(plain())));
    assert!(same(RelevanceRewriteRule.rewrite(plain())));
    assert!(same(ClusterRewriteRule.rewrite(plain())));
    assert!(same(DistinctRewriteRule.rewrite(plain())));
    assert!(same(ExtractRewriteRule::new(registry()).rewrite(plain())));
}

fn relevance(column: &str, query: &str) -> Expr {
    call("relevance", vec![col(column), text(query)])
}

#[test]
fn a_rank_is_sized_by_the_limit() {
    let plan = over(
        Op::Limit {
            fetch: Some(5),
            skip: 2,
        },
        vec![],
        over(
            Op::Sort { fetch: None },
            vec![relevance("body", "pricing")],
            over(
                Op::Projection,
                vec![col("id"), relevance("body", "pricing")],
                table(),
            ),
        ),
    );
    assert_eq!(find_fetch(&plan), Some(7));
    let drawn = accepted(RelevanceRewriteRule.rewrite(plan));
    assert!(
        drawn.contains(
            "project [id as [id], __sem_rank_0_score as [relevance(body, 'pricing')]] \
             <- sem_rank0 'pricing' 7 [body] <- table"
        ),
        "{drawn}"
    );
    assert!(drawn.contains("sem_rank1 'pricing' 7 [body]"), "{drawn}");
    assert_eq!(candidates(7), 32, "a small limit still gets a fair candidate stage");
    assert_eq!(candidates(100), 400);
}

#[test]
fn a_rank_needs_a_limit_and_a_place_in_an_ordering() {
    let plan = over(Op::Projection, vec![relevance("body", "q")], table());
    assert_eq!(refused(RelevanceRewriteRule.rewrite(plan)), NO_LIMIT);
    let plan = over(
        Op::Limit {
            fetch: Some(5),
            skip: 0,
        },
        vec![],
        over(Op::Filter, vec![relevance("body", "q")], table()),
    );
    assert_eq!(
        refused(RelevanceRewriteRule.rewrite(plan)),
        NOT_IN_SELECT_OR_ORDER_BY
    );
}

#[test]
fn a_group_key_becomes_a_cluster_node() {
    let key = || call("meaning_of", vec![col("body"), whole(3)]);
    let plan = over(
        Op::Aggregate { groups: 1 },
        vec![key(), with(Head::Opaque(9), vec![col("id")])],
        table(),
    );
    let drawn = accepted(ClusterRewriteRule.rewrite(plan));
    assert!(drawn.contains("sem_cluster0 Some(3) [body] <- table"), "{drawn}");
    assert!(drawn.contains("__sem_cluster_0_label"), "{drawn}");
    let plan = over(Op::Filter, vec![key()], table());
    assert_eq!(refused(ClusterRewriteRule.rewrite(plan)), NOT_A_GROUP_KEY);
    let auto = over(
        Op::Projection,
        vec![call("meaning_of", vec![col("body"), whole(0)])],
        table(),
    );
    let drawn = accepted(ClusterRewriteRule.rewrite(auto));
    assert!(drawn.contains("sem_cluster0 None [body]"), "{drawn}");
}

#[test]
fn a_similarity_reaches_every_distinct_key() {
    let plan = || {
        over(
            Op::DistinctOn { on: 1 },
            vec![call("semantic_key", vec![col("body")]), col("id")],
            table(),
        )
    };
    let drawn = accepted(DistinctRewriteRule.rewrite(plan()));
    assert_eq!(
        drawn,
        format!(
            "distinct on 1 [__sem_distinct_0_key, id] <- sem_distinct0 {} [body] <- table",
            f32::from_bits(DEFAULT_SIMILARITY)
        )
    );
    let attached =
        apply_similarity(plan(), 0.75f64.to_bits(), 0.75f32.to_bits()).unwrap();
    assert_eq!(shown(&attached.exprs[0]), "semantic_key(body, 0.75)");
    let drawn = accepted(DistinctRewriteRule.rewrite(attached));
    assert!(drawn.contains("sem_distinct0 0.75 [body]"), "{drawn}");
    assert!(matches!(
        apply_similarity(table(), 0, 0),
        Err(PlanError::Plan(m)) if m == NO_SEMANTIC_DISTINCT
    ));
}

#[test]
fn a_similarity_lies_between_zero_and_one() {
    let plan = over(
        Op::Projection,
        vec![call("semantic_key", vec![col("body"), float(1.5)])],
        table(),
    );
    assert_eq!(
        refused(DistinctRewriteRule.rewrite(plan)),
        "the second argument of semantic_key() must be a similarity in (0, 1] as a float literal, got: 1.5"
    );
}

#[test]
fn conditions_over_one_text_share_a_call() {
    let plan = over(
        Op::Projection,
        vec![
            with(Head::Alias("angry".to_owned()), vec![means("body", "angry")]),
            means("body", "pricing"),
            means("body", "angry"),
        ],
        table(),
    );
    let drawn = accepted(rewrite_projection(plan));
    assert!(
        drawn.ends_with("<- sem_classify0 [\"angry\", \"pricing\"] false [body] <- table"),
        "{drawn}"
    );
    assert!(
        drawn.starts_with("project [__sem_class_0_0 as angry as "),
        "{drawn}"
    );
}

#[test]
fn a_case_branch_asks_only_the_unclaimed_rows() {
    let plan = over(
        Op::Projection,
        vec![with(
            Head::Case {
                base: false,
                branches: 2,
                otherwise: false,
            },
            vec![col("free"), text("x"), means("body", "a"), text("y")],
        )],
        table(),
    );
    let drawn = accepted(rewrite_projection(plan));
    assert!(
        drawn.ends_with("<- sem_classify0 [\"a\"] true [body, not_true(free)] <- table"),
        "{drawn}"
    );
}

#[test]
fn a_label_has_nothing_to_calibrate() {
    let plan = over(
        Op::Projection,
        vec![call("means", vec![col("body"), text("a"), float(0.9)])],
        table(),
    );
    assert_eq!(refused(rewrite_projection(plan)), NOTHING_TO_CALIBRATE);
}

fn field(name: &str) -> FieldSpec {
    FieldSpec {
        name: name.to_owned(),
        ty: FieldType::Text,
        doc: String::new(),
    }
}

fn registry() -> TypeRegistry {
    TypeRegistry {
        types: vec![SemanticType {
            name: "Meeting".to_owned(),
            version: "1".to_owned(),
            fields: vec![field("topic"), field("cost"), field("currency")],
            together: vec![vec!["cost".to_owned(), "currency".to_owned()]],
        }],
    }
}

#[test]
fn only_the_wanted_fields_are_extracted() {
    let rule = ExtractRewriteRule::new(registry());
    let wanted = |field: &str| {
        call(
            "sem_extract_field",
            vec![col("body"), text("meeting"), text(field)],
        )
    };
    let plan = over(Op::Projection, vec![wanted("topic"), col("id")], table());
    assert_eq!(
        accepted(rule.rewrite(plan)),
        "project [__sem_0_topic as [sem_extract_field(body, 'meeting', 'topic')], id as [id]] \
         <- sem_extract0 Meeting [\"topic\"] [body] <- table"
    );
    let plan = over(Op::Projection, vec![wanted("cost")], table());
    let drawn = accepted(rule.rewrite(plan));
    assert!(
        drawn.contains("sem_extract0 Meeting [\"cost\", \"currency\"]"),
        "a group is never pruned apart: {drawn}"
    );
    let plan = over(Op::Filter, vec![wanted("topic")], table());
    assert_eq!(refused(rule.rewrite(plan)), NOT_IN_SELECT);
    let plan = over(Op::Projection, vec![wanted("nope")], table());
    assert!(refused(rule.rewrite(plan)).contains("nope"));
}

#[test]
fn the_first_missing_field_is_first_by_name() {
    let rule = ExtractRewriteRule::new(registry());
    let wanted = |field: &str| {
        call(
            "sem_extract_field",
            vec![col("body"), text("meeting"), text(field)],
        )
    };
    let plan = over(
        Op::Projection,
        vec![wanted("zeta"), wanted("topic"), wanted("alpha")],
        table(),
    );
    assert!(refused(rule.rewrite(plan)).ends_with("has no field alpha"));
}

#[test]
fn types_are_found_whatever_their_case() {
    let registry = registry();
    assert_eq!(registry.find("MEETING"), Some(0));
    assert_eq!(registry.find("meetings"), None);
    let ty = &registry.types[0];
    assert_eq!(ty.all_fields(), vec!["topic", "cost", "currency"]);
    assert_eq!(
        ty.pruned(&vec!["currency".to_owned()]),
        Ok(vec!["cost".to_owned(), "currency".to_owned()])
    );
    assert_eq!(ty.pruned(&vec!["x".to_owned()]), Err("x".to_owned()));
}

#[test]
fn an_inline_field_keeps_its_declaration() {
    let rule = ExtractRewriteRule::new(registry());
    let plan = over(
        Op::Projection,
        vec![call(
            "sem_extract_inline",
            vec![col("body"), text("mood"), text("text"), text("how it felt")],
        )],
        table(),
    );
    let t = rule.rewrite(plan).unwrap();
    assert!(matches!(
        &t.plan.inputs[0].op,
        Op::SemExtract { fields, inline: Some(Inline { spec, doc }), .. }
            if fields == &vec!["mood".to_owned()] && spec == "text" && doc == "how it felt"
    ));
}

#[test]
fn an_inline_field_needs_a_type() {
    let rule = ExtractRewriteRule::new(registry());
    let inline = |spec: &str| {
        call(
            "sem_extract_inline",
            vec![col("body"), text("mood"), text(spec), text("how it felt")],
        )
    };
    let plan = over(Op::Projection, vec![inline("TEXT[]"), inline("VARCHAR")], table());
    assert_eq!(refused(rule.rewrite(plan)), "unknown field type VARCHAR");
}

#[test]
fn explain_names_what_a_node_costs() {
    assert_eq!(
        explain_filter("offline sync", Some("0.90")),
        "SemFilter: MEANS('offline sync')   recall \u{2265} 0.90"
    );
    assert_eq!(explain_filter("x", None), "SemFilter: MEANS('x')   recall best-effort");
    assert_eq!(
        explain_classify(&vec!["a".to_owned(), "b".to_owned()], true),
        "SemClassify: MEANS('a', 'b')   1 model call per row, gated"
    );
    assert!(explain_rank("q", 5).contains("'q'"));
    assert!(explain_cluster(None).starts_with("SemCluster: MEANING OF INTO "));
    assert_eq!(
        explain_distinct("0.9"),
        "SemDistinct: SIMILARITY \u{2265} 0.9   no model calls, blocking"
    );
    assert_eq!(
        explain_extract("Meeting", 2),
        "SemExtract: Meeting [2 field(s)]"
    );
}

#[test]
fn columns_of_two_nodes_never_collide() {
    assert_eq!(score_column_name(1), "__sem_rank_1_score");
    assert_eq!(label_column_name(1), "__sem_cluster_1_label");
    assert_eq!(key_column_name(1), "__sem_distinct_1_key");
    assert_eq!(branch_column_name(1, 12), "__sem_class_1_12");
    assert_ne!(branch_column_name(1, 12), branch_column_name(11, 2));
    assert_eq!(output_column_name(3, "topic"), "__sem_3_topic");
    let op = Op::SemClassify {
        conditions: vec!["a".to_owned(), "b".to_owned()],
        guarded: false,
        id: 4,
    };
    assert_eq!(
        added_columns(&op),
        vec!["__sem_class_4_0", "__sem_class_4_1"]
    );
    assert!(added_columns(&Op::SemFilter {
        condition: "c".to_owned(),
        recall: None
    })
    .is_empty());
}

#[test]
fn a_node_is_rebuilt_from_its_parts() {
    let op = || Op::SemCluster { k: Some(2), id: 0 };
    let rebuilt = with_exprs_and_inputs(op(), vec![col("b")], vec![table()]).unwrap();
    assert_eq!(drawn(&rebuilt), "sem_cluster0 Some(2) [b] <- table");
    assert!(with_exprs_and_inputs(op(), vec![], vec![table()]).is_err());
    assert!(with_exprs_and_inputs(op(), vec![col("b")], vec![]).is_err());
}

#[test]
fn conjunctions_split_and_join() {
    let all = vec![col("a"), col("b"), is_not_true(col("c"))];
    let joined = conjunction(&all).unwrap();
    assert_eq!(shown(&joined), "and(and(a, b), not_true(c))");
    let mut out = Vec::new();
    split_conjunction(&joined, &mut out);
    let out: Vec<String> = out.iter().map(shown).collect();
    assert_eq!(out, vec!["a", "b", "not_true(c)"]);
    assert!(conjunction(&vec![]).is_none());
}

#[test]
fn a_filter_uses_the_index_of_its_column() {
    let cast = with(Head::Cast(1), vec![col("body")]);
    assert_eq!(
        column_behind_casts(&cast),
        Some((None, "body".to_owned()))
    );
    assert_eq!(column_behind_casts(&text("x")), None);
    let mut indexes = IndexRegistry::new();
    indexes.register_index("meetings", "body", 3);
    let resolved = |table: Option<&str>| {
        Some(Resolved {
            table: table.map(str::to_owned),
            field: "body".to_owned(),
        })
    };
    assert_eq!(
        resolve_index(&cast, &resolved(Some("meetings")), &indexes),
        FilterStages::IndexThenVerify { index: 3 }
    );
    assert_eq!(
        resolve_index(&cast, &resolved(Some("emails")), &indexes),
        FilterStages::VerifyOnly
    );
    assert_eq!(
        resolve_index(&cast, &resolved(None), &indexes),
        FilterStages::VerifyOnly
    );
    assert_eq!(resolve_index(&text("x"), &None, &indexes), FilterStages::VerifyOnly);
}
