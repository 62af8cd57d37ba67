use pgwire::messages::data::DataRow;
use semcast::error::SemcastError;
use semcast::model::retry::Delay;
use semcast::server::encode::{canned_row, encode_rows, pg_type, Column, ColumnType, PgType};
use semcast::server::engine::{command_tag, ResultTarget, Sink, StatementOutcome};
use semcast::server::handler::{dispatch, user_error, Act, Answer, Dispatch, Ran, Script};
use semcast::server::jobs::parse::{job_id, parse_cancel_job, parse_submit, strip_keyword, Piece};
use semcast::server::jobs::table::{column_names, job_row, result_path, Cell};
use semcast::server::jobs::{
    millis_of, now_ms, JobRecord, JobRegistry, JobStatus, Outcome, BUFFERED, RESTARTED,
};
use semcast::server::pg_catalog::{
    install_statements, is_relation_dependency_query, relation_dependency_columns, shim_views,
};
use semcast::server::progress::{
    final_totals, funnel_summary, render, snapshot, snapshot_if_changed, ExecNode, Metric,
    ProgressEvent,
};
use semcast::server::router::{
    classify, skip_block_comment, skip_dollar_quoted, skip_quoted, split_statements, Route,
};

#[test]
fn splits_on_top_level_semicolons_only() {
    assert_eq!(
        split_statements("SELECT 1; SELECT 2;\n SELECT 3"),
        vec!["SELECT 1", "SELECT 2", "SELECT 3"],
    );
    assert_eq!(
        split_statements("SELECT * FROM t WHERE x MEANS 'a; b'; SELECT 2"),
        vec!["SELECT * FROM t WHERE x MEANS 'a; b'", "SELECT 2"],
    );
    assert_eq!(
        split_statements(r#"SELECT "odd;name" FROM t"#),
        vec![r#"SELECT "odd;name" FROM t"#],
    );
    assert_eq!(
        split_statements("SELECT 'it''s; fine'; SELECT 2"),
        vec!["SELECT 'it''s; fine'", "SELECT 2"],
    );
    assert_eq!(
        split_statements("SELECT $q$a; b$q$; SELECT 2"),
        vec!["SELECT $q$a; b$q$", "SELECT 2"],
    );
    assert_eq!(
        split_statements("SELECT 1 -- trailing; comment\n; SELECT 2"),
        vec!["SELECT 1 -- trailing; comment", "SELECT 2"],
    );
    assert_eq!(
        split_statements("SELECT 1 /* a; /* nested; */ b */; SELECT 2"),
        vec!["SELECT 1 /* a; /* nested; */ b */", "SELECT 2"],
    );
}

#[test]
fn drops_empty_statements() {
    assert_eq!(split_statements("; ;\n;"), Vec::<&str>::new());
    assert_eq!(split_statements("SELECT 1;;"), vec!["SELECT 1"]);
    assert_eq!(split_statements(""), Vec::<&str>::new());
}

#[test]
fn unterminated_quote_swallows_the_rest() {
    assert_eq!(
        split_statements("SELECT 'unterminated; SELECT 2"),
        vec!["SELECT 'unterminated; SELECT 2"],
    );
}

#[test]
fn splitting_again_changes_nothing() {
    let inputs = [
        "SELECT 1; SELECT 2;\n SELECT 3",
        "SELECT 'it''s; fine' ; SELECT \"odd;name\"",
        "SELECT $q$a; b$q$; SELECT $1; SELECT $a b$",
        "SELECT 1 -- trailing; comment\n; SELECT 2 -- last",
        "SELECT 1 /* a; /* nested; */ b */; SELECT 2 /* open;",
        "; ;\u{3000}SELECT 'unterminated; SELECT 2 ",
    ];
    for input in inputs {
        let parts = split_statements(input);
        for part in &parts {
            assert_eq!(split_statements(part), vec![part.clone()]);
        }
        assert_eq!(split_statements(&parts.join("\n;")), parts);
        let mut from = 0;
        for part in &parts {
            let at = input[from..].find(part.as_str()).expect("as it stood");
            from += at + part.len();
        }
    }
}

#[test]
fn statements_are_handed_to_whom_they_are_for() {
    assert!(matches!(
        dispatch("SUBMIT SELECT 1"),
        Dispatch::Submit(sql) if sql == "SELECT 1"
    ));
    assert!(matches!(
        dispatch("cancel job 'job_17_0001';"),
        Dispatch::CancelJob(id) if id == "job_17_0001"
    ));
    assert!(matches!(
        dispatch("CANCEL JOB 'a' extra"),
        Dispatch::Refused(message) if message.starts_with("invalid CANCEL JOB statement")
    ));
    assert!(matches!(
        dispatch("select 1 from PG_DEPEND join pg_rewrite on true"),
        Dispatch::NoDependencies
    ));
    assert!(matches!(dispatch("SELECT 1 FROM pg_depend"), Dispatch::Engine));
    assert!(matches!(dispatch("SUBMIT"), Dispatch::Engine));
}

#[test]
fn a_dollar_that_opens_no_quote_is_a_character() {
    assert_eq!(
        split_statements("SELECT $1; SELECT 2"),
        vec!["SELECT $1", "SELECT 2"],
    );
    assert_eq!(
        split_statements("SELECT $é_1$a;b$é_1$; SELECT 2"),
        vec!["SELECT $é_1$a;b$é_1$", "SELECT 2"],
    );
    assert_eq!(
        split_statements("SELECT $$a; $b$; c$$; SELECT 2"),
        vec!["SELECT $$a; $b$; c$$", "SELECT 2"],
    );
}

#[test]
fn quotes_and_comments_end_where_they_close() {
    let chars: Vec<char> = "'a''b'c".chars().collect();
    assert_eq!(skip_quoted(&chars, 0), 6);
    let chars: Vec<char> = "$t$x$t$y".chars().collect();
    assert_eq!(skip_dollar_quoted(&chars, 0), 7);
    let chars: Vec<char> = "/*/**/x*/y".chars().collect();
    assert_eq!(skip_block_comment(&chars, 0), 9);
}

#[test]
fn session_chatter_becomes_noops() {
    assert_eq!(classify("SET application_name = 'x'"), Route::NoOp("SET"));
    assert_eq!(classify("set datestyle to iso"), Route::NoOp("SET"));
    assert_eq!(classify("BEGIN"), Route::NoOp("BEGIN"));
    assert_eq!(classify("START TRANSACTION"), Route::NoOp("BEGIN"));
    assert_eq!(classify("COMMIT"), Route::NoOp("COMMIT"));
    assert_eq!(classify("ROLLBACK"), Route::NoOp("ROLLBACK"));
    assert_eq!(classify("DISCARD ALL"), Route::NoOp("DISCARD"));
    assert_eq!(classify("RESET all"), Route::NoOp("RESET"));
}

#[test]
fn handshake_shows_are_canned_the_rest_hit_the_engine() {
    assert_eq!(
        classify("SHOW transaction_isolation"),
        Route::CannedTransactionIsolation,
    );
    assert_eq!(
        classify("SHOW TRANSACTION ISOLATION LEVEL"),
        Route::CannedTransactionIsolation,
    );
    assert_eq!(classify("SHOW server_version"), Route::CannedServerVersion);
    assert_eq!(classify("SHOW tables"), Route::Engine);
    assert_eq!(
        classify("SHOW datafusion.execution.batch_size"),
        Route::Engine
    );
}

#[test]
fn real_sql_hits_the_engine() {
    for sql in [
        "SELECT 1",
        "CREATE SEMANTIC INDEX ON meetings(transcript)",
        "SELECT id FROM t WHERE x MEANS 'a' WITH RECALL 0.9",
        "EXPLAIN SELECT 1",
        "CREATE EXTERNAL TABLE t STORED AS PARQUET LOCATION '/x'",
        "INSERT INTO t VALUES (1)",
    ] {
        assert_eq!(classify(sql), Route::Engine, "{sql}");
    }
}

// Per field, a big-endian i32 length (-1 is NULL) and that many value bytes.
fn text_cells(row: &DataRow) -> Vec<Option<String>> {
    let mut cells = Vec::new();
    let data: &[u8] = row.data.as_ref();
    let mut off = 0;
    for _ in 0..row.field_count {
        let len = i32::from_be_bytes(data[off..off + 4].try_into().unwrap());
        off += 4;
        if len < 0 {
            cells.push(None);
        } else {
            let end = off + len as usize;
            cells.push(Some(String::from_utf8(data[off..end].to_vec()).unwrap()));
            off = end;
        }
    }
    cells
}

#[test]
fn oid_map_covers_the_common_types() {
    assert_eq!(pg_type(ColumnType::Text), PgType::Text);
    assert_eq!(pg_type(ColumnType::Boolean), PgType::Bool);
    assert_eq!(pg_type(ColumnType::Int32), PgType::Int4);
    assert_eq!(pg_type(ColumnType::Int64), PgType::Int8);
    assert_eq!(pg_type(ColumnType::Float64), PgType::Float8);
    assert_eq!(
        pg_type(ColumnType::Timestamp { zoned: false }),
        PgType::Timestamp,
    );
    assert_eq!(
        pg_type(ColumnType::Timestamp { zoned: true }),
        PgType::TimestampTz,
    );
    assert_eq!(pg_type(ColumnType::Date), PgType::Date);
    assert_eq!(pg_type(ColumnType::Other), PgType::Text);
}

#[test]
fn unsigned_types_are_declared_wide_enough() {
    assert_eq!(pg_type(ColumnType::UInt8), PgType::Int4);
    assert_eq!(pg_type(ColumnType::UInt16), PgType::Int4);
    assert_eq!(pg_type(ColumnType::UInt32), PgType::Int8);
    assert_eq!(pg_type(ColumnType::UInt64), PgType::Numeric);
}

fn cells(values: &[Option<&str>]) -> Vec<Option<String>> {
    values.iter().map(|v| v.map(str::to_owned)).collect()
}

#[test]
fn rows_encode_as_postgres_text() {
    let columns = vec![
        Column {
            ty: ColumnType::Text,
            cells: cells(&[Some("hello"), None]),
        },
        Column {
            ty: ColumnType::Int64,
            cells: cells(&[Some("42"), None]),
        },
        Column {
            ty: ColumnType::Float64,
            cells: cells(&[Some("1.5"), None]),
        },
        Column {
            ty: ColumnType::Boolean,
            cells: cells(&[Some("true"), Some("false")]),
        },
    ];
    let rows: Vec<Vec<Option<String>>> = encode_rows(&columns, 2).iter().map(text_cells).collect();
    assert_eq!(
        rows,
        vec![
            vec![
                Some("hello".into()),
                Some("42".into()),
                Some("1.5".into()),
                Some("t".into()),
            ],
            vec![None, None, None, Some("f".into())],
        ],
    );
}

#[test]
fn canned_show_answer_is_one_text_row() {
    let row = canned_row("15.0".to_owned());
    assert_eq!(text_cells(&row), vec![Some("15.0".to_owned())]);
}

#[test]
fn the_dependency_walk_is_recognized() {
    assert!(is_relation_dependency_query(
        "select distinct x from pg_class \
         join pg_depend as d on d.classid = 'pg_rewrite'::regclass",
    ));
    assert!(!is_relation_dependency_query("SELECT * FROM pg_tables"));
}

#[test]
fn the_shim_hides_its_own_views() {
    let views = shim_views();
    let statements = install_statements();
    assert_eq!(views.len(), statements.len());
    for (view, statement) in views.iter().zip(&statements) {
        assert!(
            statement.starts_with(&format!("CREATE OR REPLACE VIEW {view} AS SELECT ")),
            "{statement}"
        );
    }
    assert!(
        statements[2].ends_with(
            "NOT IN ('pg_namespace', 'pg_tables', 'pg_views', 'pg_matviews', 'pg_proc')"
        ),
        "{}",
        statements[2]
    );
    assert_eq!(
        relation_dependency_columns(),
        vec![
            "dependent_schema",
            "dependent_name",
            "referenced_schema",
            "referenced_name"
        ]
    );
}

#[test]
fn create_external_table_tags_as_create_table() {
    let tag = command_tag("CREATE EXTERNAL TABLE t STORED AS CSV LOCATION 'x.csv'");
    assert_eq!(tag, "CREATE TABLE");
}

#[test]
fn a_command_is_tagged_by_its_leading_words() {
    assert_eq!(
        command_tag("create semantic index ON t(c)"),
        "CREATE SEMANTIC INDEX"
    );
    assert_eq!(command_tag("drop table t"), "DROP TABLE");
    assert_eq!(command_tag("insert into t values (1)"), "INSERT");
    assert_eq!(command_tag("vacuum"), "VACUUM");
    assert_eq!(command_tag(" "), "OK");
}

#[test]
fn a_result_goes_where_it_was_asked_to() {
    let file = Sink::new(2, ResultTarget::Parquet("/tmp/r.parquet".to_owned()));
    let written = file.push(3).push(4).finish("SELECT 1");
    assert!(matches!(
        written,
        StatementOutcome::Written { ref path, rows: 7 } if path == "/tmp/r.parquet"
    ));
    let memory = Sink::new(1, ResultTarget::Memory).push(3).finish("SELECT 1");
    assert!(matches!(memory, StatementOutcome::Rows));
    let nothing = Sink::new(0, ResultTarget::Memory).finish("DROP TABLE t");
    assert!(matches!(nothing, StatementOutcome::Command { ref tag } if tag == "DROP TABLE"));
}

#[test]
fn a_script_stops_at_the_first_error() {
    let mut script = Script::new("BEGIN; SELECT 1; SELECT 2; SELECT 3", "15.0".to_owned());
    assert!(matches!(script.advance(), Act::Run));
    assert_eq!(script.list[script.next], "SELECT 1");
    script.feed(Ran::Rows);
    assert!(matches!(script.advance(), Act::Run));
    script.feed(Ran::Failed("boom".to_owned()));
    assert!(matches!(script.advance(), Act::Send));
    assert_eq!(script.answers.len(), 3);
    assert!(matches!(&script.answers[0], Answer::Tag(tag) if tag == "BEGIN"));
    assert!(matches!(&script.answers[1], Answer::Rows(1)));
    assert!(matches!(&script.answers[2], Answer::Error(message) if message == "boom"));
}

#[test]
fn handshake_statements_never_reach_the_engine() {
    let mut script = Script::new("SHOW server_version; SHOW transaction_isolation", "15.0".into());
    assert!(matches!(script.advance(), Act::Send));
    assert!(matches!(
        &script.answers[0],
        Answer::Canned { column: "server_version", value } if value == "15.0"
    ));
    assert!(matches!(
        &script.answers[1],
        Answer::Canned { column: "transaction_isolation", value } if value == "read uncommitted"
    ));
    let mut script = Script::new(" ; ", "15.0".into());
    assert!(matches!(script.advance(), Act::Send));
    assert!(matches!(script.answers[..], [Answer::Empty]));
}

#[test]
fn catalog_queries_fail_with_a_hint() {
    let error = SemcastError::DataFusion("table not found".to_owned());
    assert_eq!(
        user_error("SELECT * FROM PG_CATALOG.pg_class", &error),
        "pg_catalog introspection is not supported yet (psql \\d commands won't work)"
    );
    assert_eq!(
        user_error("SELECT 1", &error),
        "datafusion error: table not found"
    );
}

#[test]
fn submit_hands_the_statement_through_untouched() {
    assert_eq!(
        parse_submit("SUBMIT SELECT * FROM t WHERE body MEANS 'a; b'").as_deref(),
        Some("SELECT * FROM t WHERE body MEANS 'a; b'"),
    );
    assert_eq!(
        parse_submit("submit  SELECT 1 WITH RECALL 0.9").as_deref(),
        Some("SELECT 1 WITH RECALL 0.9"),
    );
    assert_eq!(
        parse_submit("SUBMIT\nCREATE SEMANTIC INDEX ON t(c)").as_deref(),
        Some("CREATE SEMANTIC INDEX ON t(c)"),
    );
}

#[test]
fn submit_needs_a_statement_and_a_word_boundary() {
    assert_eq!(parse_submit("SUBMIT"), None);
    assert_eq!(parse_submit("SUBMIT   "), None);
    assert_eq!(parse_submit("SUBMITTED SELECT 1"), None);
    assert_eq!(parse_submit("SELECT * FROM submissions"), None);
}

#[test]
fn a_keyword_ends_at_white_space() {
    assert_eq!(
        strip_keyword("  Cancel\u{a0}JOB x ", "cancel").as_deref(),
        Some("JOB x")
    );
    assert_eq!(strip_keyword("cancel;", "cancel"), None);
    assert_eq!(strip_keyword("can", "cancel"), None);
}

#[test]
fn cancel_job_takes_a_quoted_or_bare_id() {
    assert_eq!(
        parse_cancel_job("CANCEL JOB 'job_17_0001'").unwrap(),
        Some("job_17_0001".to_owned()),
    );
    assert_eq!(
        parse_cancel_job("cancel job job_17_0001;").unwrap(),
        Some("job_17_0001".to_owned()),
    );
}

#[test]
fn other_statements_are_not_cancel_job() {
    assert_eq!(parse_cancel_job("SELECT 1").unwrap(), None);
    assert_eq!(parse_cancel_job("CANCEL").unwrap(), None);
    assert_eq!(parse_cancel_job("CANCEL QUERY 'x'").unwrap(), None);
}

#[test]
fn malformed_cancel_job_says_what_it_wanted() {
    let err = parse_cancel_job("CANCEL JOB 'a' extra").unwrap_err();
    assert!(err.contains("CANCEL JOB '<job_id>'"), "got: {err}");
    let err = parse_cancel_job("CANCEL JOB").unwrap_err();
    assert!(err.contains("expected a job id"), "got: {err}");
    let err = parse_cancel_job("CANCEL JOB 'unterminated").unwrap_err();
    assert!(err.starts_with("invalid CANCEL JOB statement: "), "got: {err}");
}

#[test]
fn a_token_behind_a_job_id_is_named_with_its_place() {
    assert_eq!(
        parse_cancel_job("CANCEL JOB 'a' b").unwrap_err(),
        "invalid CANCEL JOB statement: sql parser error: Expected: EOF, found: b at Line: 1, \
         Column: 5; expected CANCEL JOB '<job_id>'",
    );
}

#[test]
fn a_job_id_is_a_word_or_a_quoted_text() {
    assert_eq!(job_id(Piece::Quoted("a b".to_owned())).unwrap(), "a b");
    assert_eq!(job_id(Piece::Word("job_1".to_owned())).unwrap(), "job_1");
    assert_eq!(
        job_id(Piece::SemiColon).unwrap_err(),
        "invalid CANCEL JOB statement: expected a job id, got ;; expected CANCEL JOB '<job_id>'",
    );
    assert_eq!(
        job_id(Piece::Other("12".to_owned())).unwrap_err(),
        "invalid CANCEL JOB statement: expected a job id, got 12; expected CANCEL JOB '<job_id>'",
    );
}

#[test]
fn create_writes_a_queued_record() {
    let mut registry = JobRegistry::new();
    let id = registry.create("SELECT 1", 1_700_000_000_000);
    assert_eq!(id, "job_1700000000000_0000");

    let record = registry.get(&id).unwrap();
    assert_eq!(record.status, JobStatus::Queued);
    assert_eq!(record.sql, "SELECT 1");
}

#[test]
fn a_prepared_job_is_not_known_yet() {
    let mut registry = JobRegistry::new();
    let record = registry.prepare("SELECT 1", 17);
    assert_eq!(record.id, "job_17_0000");
    assert!(registry.get("job_17_0000").is_none());
    assert_eq!(registry.create("SELECT 2", 17), "job_17_0001", "its number is taken");
    registry.enroll(record);
    let known = registry.get("job_17_0000").unwrap();
    assert_eq!(known.sql, "SELECT 1");
    assert!(matches!(known.status, JobStatus::Queued));
}

#[test]
fn recover_marks_in_flight_jobs_interrupted() {
    let mut record = JobRecord::new("job_1_0000".to_owned(), "SELECT 1".to_owned(), 1);
    record.status = JobStatus::Running;
    record.started_at_ms = Some(2);
    record.progress = Some("verify: 3 model calls, 0 cache hits, 0 dropped".to_owned());
    record.result_path = Some("/tmp/x.parquet".to_owned());

    let mut registry = JobRegistry::new();
    assert!(registry.recover(record, 9));

    let record = registry.get("job_1_0000").unwrap();
    assert_eq!(record.status, JobStatus::Interrupted);
    assert_eq!(record.error.as_deref(), Some(RESTARTED));
    assert!(record.error.unwrap().contains("restarted"));
    assert!(record.progress.unwrap().contains("3 model calls"));
    assert_eq!(record.result_path, None);
    assert_eq!(record.finished_at_ms, Some(9));
}

#[test]
fn recover_leaves_finished_jobs_alone() {
    let mut registry = JobRegistry::new();
    let id = registry.create("SELECT 1", 1);
    let mut record = registry.get(&id).unwrap();
    record.status = JobStatus::Succeeded;
    record.rows = Some(7);
    record.result_path = Some("/tmp/result.parquet".to_owned());
    registry.update(record);

    let mut reopened = JobRegistry::new();
    assert!(!reopened.recover(registry.get(&id).unwrap(), 5));
    let record = reopened.get(&id).unwrap();
    assert_eq!(record.status, JobStatus::Succeeded);
    assert_eq!(record.rows, Some(7));
    assert_eq!(record.result_path.as_deref(), Some("/tmp/result.parquet"));
}

#[test]
fn cancel_rejects_unknown_and_finished_jobs() {
    let mut registry = JobRegistry::new();
    assert!(registry
        .cancel("nope", 1)
        .unwrap_err()
        .contains("no such job"));

    let id = registry.create("SELECT 1", 1);
    let mut record = registry.get(&id).unwrap();
    record.status = JobStatus::Succeeded;
    registry.update(record);
    assert!(
        registry
            .cancel(&id, 2)
            .unwrap_err()
            .contains("already finished"),
        "a finished job cannot be cancelled",
    );
}

#[test]
fn a_cancelled_job_never_starts() {
    let mut registry = JobRegistry::new();
    let id = registry.create("SELECT 1", 1);

    registry.cancel(&id, 2).unwrap();
    assert!(!registry.start(&id, 3), "a cancelled job refuses to start");
    assert_eq!(registry.get(&id).unwrap().status, JobStatus::Cancelled);

    assert!(
        !registry.start("nope", 3),
        "so does a job that does not exist"
    );
}

#[test]
fn start_moves_a_queued_job_to_running() {
    let mut registry = JobRegistry::new();
    let id = registry.create("SELECT 1", 1);

    assert!(registry.start(&id, 2));
    let record = registry.get(&id).unwrap();
    assert_eq!(record.status, JobStatus::Running);
    assert!(record.started_at_ms.is_some());
}

#[test]
fn snapshot_is_newest_first() {
    let mut registry = JobRegistry::new();
    let first = registry.create("SELECT 1", 5);
    let second = registry.create("SELECT 2", 5);
    let late = registry.create("SELECT 3", 6);

    let ids: Vec<String> = registry.snapshot().into_iter().map(|r| r.id).collect();
    assert_eq!(ids, vec![late, second, first]);
}

#[test]
fn a_cancelled_job_stays_cancelled_when_its_statement_ends() {
    let mut registry = JobRegistry::new();
    let id = registry.create("SELECT 1", 1);
    registry.start(&id, 2);
    registry.cancel(&id, 3).unwrap();
    registry.finish(
        &id,
        Outcome::Written {
            path: "/tmp/r".to_owned(),
            rows: 4,
        },
        4,
    );
    let record = registry.get(&id).unwrap();
    assert_eq!(record.status, JobStatus::Cancelled);
    assert_eq!(record.finished_at_ms, Some(3));
    assert_eq!(record.result_path, None);
}

#[test]
fn a_finished_job_says_how_it_went() {
    let mut registry = JobRegistry::new();
    let run = |registry: &mut JobRegistry, outcome: Outcome| {
        let id = registry.create("x", 1);
        registry.start(&id, 2);
        registry.finish(&id, outcome, 3);
        registry.get(&id).unwrap()
    };
    let written = run(
        &mut registry,
        Outcome::Written {
            path: "/tmp/r".to_owned(),
            rows: 4,
        },
    );
    assert_eq!(written.status.as_str(), "succeeded");
    assert_eq!(written.rows, Some(4));
    assert_eq!(
        result_path(&written.id.clone(), &Some(written)).as_deref(),
        Ok("/tmp/r")
    );
    let command = run(
        &mut registry,
        Outcome::Command {
            tag: "DROP TABLE".to_owned(),
        },
    );
    assert!(command.status.is_terminal());
    assert_eq!(
        result_path("j", &Some(command)),
        Err("job j ran `DROP TABLE`, which produces no rows".to_owned())
    );
    let buffered = run(&mut registry, Outcome::Buffered);
    assert_eq!(buffered.error.as_deref(), Some(BUFFERED));
    let failed = run(
        &mut registry,
        Outcome::Failed {
            message: "boom".to_owned(),
        },
    );
    assert_eq!(failed.error.as_deref(), Some("boom"));
    assert_eq!(
        result_path("j", &Some(failed)),
        Err("job j is failed and produced no result".to_owned())
    );
    let queued = JobRecord::new("j".to_owned(), "x".to_owned(), 1);
    assert_eq!(
        result_path("j", &Some(queued)),
        Err("job j is queued \u{2014} no result yet".to_owned())
    );
    assert_eq!(result_path("j", &None), Err("no such job: j".to_owned()));
}

#[test]
fn progress_is_kept_with_the_job() {
    let mut registry = JobRegistry::new();
    let id = registry.create("x", 1);
    registry.start(&id, 1);
    let mut counts = snapshot(&plan());
    counts.model_calls = 9;
    registry.observe(&id, &ProgressEvent::Funnel(counts));
    let record = registry.get(&id).unwrap();
    assert_eq!(record.funnel, counts);
    assert_eq!(record.progress, Some(render(&counts)));
    registry.observe(&id, &ProgressEvent::Plan("funnel: x".to_owned()));
    let record = registry.get(&id).unwrap();
    assert_eq!(record.funnel, counts);
    assert_eq!(record.progress.as_deref(), Some("funnel: x"));
}

#[test]
fn a_row_of_the_jobs_table_matches_its_columns() {
    let mut record = JobRecord::new("j".to_owned(), "x".to_owned(), 5);
    record.funnel = snapshot(&plan());
    let row = job_row(record);
    let names = column_names();
    assert_eq!(row.len(), names.len());
    let at = |name: &str| &row[names.iter().position(|n| n == name).unwrap()];
    assert!(matches!(at("status"), Cell::Text(Some(s)) if s == "queued"));
    assert!(matches!(at("submitted_at"), Cell::Time(Some(5))));
    assert!(matches!(at("started_at"), Cell::Time(None)));
    assert!(matches!(at("model_calls"), Cell::Number(Some(2))));
}

#[test]
fn the_clock_gives_milliseconds() {
    assert_eq!(
        millis_of(Some(Delay {
            secs: 1,
            nanos: 500_999_999
        })),
        1500
    );
    assert_eq!(millis_of(None), 0);
    let before = std::time::SystemTime::now()
        .duration_since(std::time::UNIX_EPOCH)
        .unwrap()
        .as_millis() as i64;
    let now = now_ms();
    assert!(now >= before && now < before + 60_000);
}

fn node(name: &str, metrics: &[(&str, usize)], children: Vec<ExecNode>) -> ExecNode {
    ExecNode {
        name: name.to_owned(),
        line: format!("{name}: condition"),
        metrics: metrics
            .iter()
            .map(|(name, value)| Metric {
                name: name.to_string(),
                value: *value,
            })
            .collect(),
        children,
    }
}

fn plan() -> ExecNode {
    node(
        "ProjectionExec",
        &[],
        vec![node(
            "VerifyExec",
            &[("model_calls", 2), ("cache_hits", 1), ("rows_dropped", 3)],
            vec![node(
                "IndexScanExec",
                &[("index_hits", 4), ("rows_pruned", 5)],
                vec![],
            )],
        )],
    )
}

#[test]
fn the_funnel_is_summed_over_the_plan() {
    let counts = snapshot(&plan());
    assert!(counts.is_semantic());
    assert_eq!(
        render(&counts),
        "index scan: 4 hits, 5 pruned; verify: 2 model calls, 1 cache hits, 3 dropped"
    );
    assert_eq!(
        ProgressEvent::Done(counts).line(),
        "funnel done \u{2014} index scan: 4 hits, 5 pruned; \
         verify: 2 model calls, 1 cache hits, 3 dropped"
    );
    assert_eq!(
        funnel_summary(&plan()),
        vec![
            "funnel: VerifyExec: condition",
            "funnel: IndexScanExec: condition"
        ]
    );
}

#[test]
fn only_changes_are_announced() {
    let mut last = snapshot(&node("ProjectionExec", &[], vec![]));
    assert_eq!(
        snapshot_if_changed(&plan(), &mut last),
        Some(ProgressEvent::Funnel(snapshot(&plan())))
    );
    assert_eq!(snapshot_if_changed(&plan(), &mut last), None);
}

#[test]
fn plain_plans_stay_silent() {
    let plain = node("ProjectionExec", &[("model_calls", 9)], vec![]);
    assert!(!snapshot(&plain).is_semantic());
    assert_eq!(final_totals(&plain), None);
    assert!(funnel_summary(&plain).is_empty());
    let mut last = snapshot(&plan());
    assert_eq!(snapshot_if_changed(&plain, &mut last), None);
}
