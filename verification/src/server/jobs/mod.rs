//! Batch jobs: a statement submitted with `SUBMIT` runs detached from the
//! connection that asked for it, and its state is polled back with ordinary SQL.
//!
//! Semantic queries run for minutes to hours. Holding a connection open for
//! that long means that a dropped link throws away every model call made so far.
//!
//! This module is state only: what each job is, and which step may follow which.
//! Whoever runs the jobs keeps the registry behind a lock, writes a record out
//! whenever it changes, and holds the handles that stop a running task.

pub mod parse;
pub mod table;

use std::time::SystemTime;

use vstd::prelude::*;
use vstd::seq_lib::{lemma_multiset_commutative, to_multiset_build};

use crate::clock::{moment, since_epoch, system_now};
use crate::model::retry::Delay;
use crate::server::progress::{FunnelCounts, ProgressEvent};
use crate::text::{
    concat3, decimal, decimal_is_digits, decimal_is_injective, decimal_of, decimal_reads_back,
    digits_value, is_digit, opt_view, pad_zeros, same, signed_decimal, signed_of, text_le,
    text_order_is_total, text_order_is_transitive, text_precedes, zero_padded,
};

verus! {

/// Per-job state file, rewritten on every transition.
pub const RECORD_FILE: &'static str = "job.json";

/// Rendered funnel lines, appended as they arrive.
pub const PROGRESS_FILE: &'static str = "progress.log";

/// Where a job's rows land.
pub const RESULT_FILE: &'static str = "result.parquet";

pub const NO_JOBS: &'static str = "batch jobs are not enabled on this server";

pub const RESTARTED: &'static str = "the server restarted while this job was running";

pub const BUFFERED: &'static str = "internal: job produced buffered rows";

#[derive(Debug, Clone, Copy, PartialEq, Eq, Structural)]
pub enum JobStatus {
    /// Registered, waiting for a concurrency slot.
    Queued,
    Running,
    Succeeded,
    Failed,
    Cancelled,
    /// The server restarted while this job was in flight.
    Interrupted,
}

impl JobStatus {
    /// The word for a status.
    pub open spec fn word(self) -> Seq<char> {
        match self {
            JobStatus::Queued => "queued"@,
            JobStatus::Running => "running"@,
            JobStatus::Succeeded => "succeeded"@,
            JobStatus::Failed => "failed"@,
            JobStatus::Cancelled => "cancelled"@,
            JobStatus::Interrupted => "interrupted"@,
        }
    }

    /// Whether the job is over.
    pub open spec fn over(self) -> bool {
        self != JobStatus::Queued && self != JobStatus::Running
    }

    pub fn as_str(&self) -> (r: &'static str)
        ensures
            r@ == self.word(),
    {
        match self {
            JobStatus::Queued => "queued",
            JobStatus::Running => "running",
            JobStatus::Succeeded => "succeeded",
            JobStatus::Failed => "failed",
            JobStatus::Cancelled => "cancelled",
            JobStatus::Interrupted => "interrupted",
        }
    }

    pub fn is_terminal(&self) -> (r: bool)
        ensures
            r == self.over(),
    {
        !matches!(self, JobStatus::Queued | JobStatus::Running)
    }
}

/// Everything that is known of one job. Times are in milliseconds since the Unix
/// epoch.
#[derive(Debug)]
pub struct JobRecord {
    pub id: String,
    pub sql: String,
    pub status: JobStatus,
    pub submitted_at_ms: i64,
    pub started_at_ms: Option<i64>,
    pub finished_at_ms: Option<i64>,
    pub rows: Option<i64>,
    /// Set instead of `rows` for statements with no result shape.
    pub command_tag: Option<String>,
    pub error: Option<String>,
    /// The most recent rendered funnel line.
    pub progress: Option<String>,
    pub funnel: FunnelCounts,
    pub result_path: Option<String>,
}

/// What a [`JobRecord`] says.
pub struct RecordView {
    pub id: Seq<char>,
    pub sql: Seq<char>,
    pub status: JobStatus,
    pub submitted_at_ms: i64,
    pub started_at_ms: Option<i64>,
    pub finished_at_ms: Option<i64>,
    pub rows: Option<i64>,
    pub command_tag: Option<Seq<char>>,
    pub error: Option<Seq<char>>,
    pub progress: Option<Seq<char>>,
    pub funnel: FunnelCounts,
    pub result_path: Option<Seq<char>>,
}

impl View for JobRecord {
    type V = RecordView;

    open spec fn view(&self) -> RecordView {
        RecordView {
            id: self.id@,
            sql: self.sql@,
            status: self.status,
            submitted_at_ms: self.submitted_at_ms,
            started_at_ms: self.started_at_ms,
            finished_at_ms: self.finished_at_ms,
            rows: self.rows,
            command_tag: opt_view(self.command_tag),
            error: opt_view(self.error),
            progress: opt_view(self.progress),
            funnel: self.funnel,
            result_path: opt_view(self.result_path),
        }
    }
}

pub open spec fn record_views(records: Seq<JobRecord>) -> Seq<RecordView> {
    records.map_values(|r: JobRecord| r@)
}

/// Counts of nothing.
pub open spec fn no_counts() -> FunnelCounts {
    FunnelCounts {
        has_index_scan: false,
        index_hits: 0,
        rows_pruned: 0,
        calibration_sampled_rows: 0,
        calibration_model_calls: 0,
        has_verify: false,
        model_calls: 0,
        cache_hits: 0,
        rows_dropped: 0,
        has_extract: false,
        extract_model_calls: 0,
        extract_cache_hits: 0,
        extract_rows_failed: 0,
        extract_fields_failed: 0,
        has_cluster: false,
        cluster_groups: 0,
        cluster_model_calls: 0,
        cluster_cache_hits: 0,
        cluster_unindexed_rows: 0,
        cluster_labels_failed: 0,
        has_classify: false,
        classify_model_calls: 0,
        classify_cache_hits: 0,
        classify_rows_gated: 0,
        classify_rows_failed: 0,
        classify_branches_failed: 0,
        has_rank: false,
        rank_candidate_rows: 0,
        rank_rows_pruned: 0,
        rank_unindexed_rows: 0,
        rank_model_calls: 0,
        rank_cache_hits: 0,
        rank_rows_failed: 0,
    }
}

/// A job that was just submitted.
pub open spec fn queued(id: Seq<char>, sql: Seq<char>, now: i64) -> RecordView {
    RecordView {
        id,
        sql,
        status: JobStatus::Queued,
        submitted_at_ms: now,
        started_at_ms: None,
        finished_at_ms: None,
        rows: None,
        command_tag: None,
        error: None,
        progress: None,
        funnel: no_counts(),
        result_path: None,
    }
}

/// A job once it has its slot.
pub open spec fn started(r: RecordView, now: i64) -> RecordView {
    RecordView { status: JobStatus::Running, started_at_ms: Some(now), ..r }
}

/// A job that was called off. Whatever result was written is missing its end.
pub open spec fn cancelled(r: RecordView, now: i64) -> RecordView {
    RecordView {
        status: JobStatus::Cancelled,
        finished_at_ms: Some(now),
        result_path: None,
        ..r
    }
}

/// A job found on disk when the server starts. One that was in flight was killed
/// by the restart; it is not run again, for it may already partly have applied.
pub open spec fn recovered(r: RecordView, now: i64) -> RecordView {
    if r.status.over() {
        r
    } else {
        RecordView {
            status: JobStatus::Interrupted,
            finished_at_ms: Some(now),
            error: Some(RESTARTED@),
            result_path: None,
            ..r
        }
    }
}

/// A job whose plan reports progress.
pub open spec fn progressed(r: RecordView, event: ProgressEvent) -> RecordView {
    RecordView {
        progress: Some(event.shown()),
        funnel: match event {
            ProgressEvent::Plan(_) => r.funnel,
            ProgressEvent::Funnel(counts) => counts,
            ProgressEvent::Done(counts) => counts,
        },
        ..r
    }
}

/// How a job's statement went.
#[derive(Debug)]
pub enum Outcome {
    /// Its rows are in a file.
    Written { path: String, rows: u64 },
    /// It had no result shape.
    Command { tag: String },
    /// Its rows were held in memory, which no job's should be.
    Buffered,
    Failed { message: String },
}

/// A job whose statement is done, unless it was over before: being called off is
/// a user's explicit decision, so it wins.
pub open spec fn finished(r: RecordView, outcome: Outcome, now: i64) -> RecordView {
    if r.status.over() {
        r
    } else {
        let over = RecordView { finished_at_ms: Some(now), ..r };
        match outcome {
            Outcome::Written { path, rows } => RecordView {
                status: JobStatus::Succeeded,
                rows: Some(rows as i64),
                result_path: Some(path@),
                ..over
            },
            Outcome::Command { tag } => RecordView {
                status: JobStatus::Succeeded,
                command_tag: Some(tag@),
                ..over
            },
            Outcome::Buffered => RecordView {
                status: JobStatus::Failed,
                error: Some(BUFFERED@),
                ..over
            },
            Outcome::Failed { message } => RecordView {
                status: JobStatus::Failed,
                error: Some(message@),
                result_path: None,
                ..over
            },
        }
    }
}

fn copy_text(s: &Option<String>) -> (r: Option<String>)
    ensures
        opt_view(r) == opt_view(*s),
{
    match s {
        Some(s) => Some(s.clone()),
        None => None,
    }
}

impl JobRecord {
    /// A job that was just submitted.
    pub fn new(id: String, sql: String, submitted_at_ms: i64) -> (r: Self)
        ensures
            r@ == queued(id@, sql@, submitted_at_ms),
    {
        JobRecord {
            id,
            sql,
            status: JobStatus::Queued,
            submitted_at_ms,
            started_at_ms: None,
            finished_at_ms: None,
            rows: None,
            command_tag: None,
            error: None,
            progress: None,
            funnel: FunnelCounts::default(),
            result_path: None,
        }
    }

    /// A copy of the record.
    pub fn copy(&self) -> (r: Self)
        ensures
            r@ == self@,
    {
        JobRecord {
            id: self.id.clone(),
            sql: self.sql.clone(),
            status: self.status,
            submitted_at_ms: self.submitted_at_ms,
            started_at_ms: self.started_at_ms,
            finished_at_ms: self.finished_at_ms,
            rows: self.rows,
            command_tag: copy_text(&self.command_tag),
            error: copy_text(&self.error),
            progress: copy_text(&self.progress),
            funnel: self.funnel,
            result_path: copy_text(&self.result_path),
        }
    }
}

/// Where the job of an id stands.
pub open spec fn position(jobs: Seq<RecordView>, id: Seq<char>) -> Option<int>
    decreases jobs.len(),
{
    if jobs.len() == 0 {
        None
    } else {
        match position(jobs.drop_last(), id) {
            Some(i) => Some(i),
            None => if jobs.last().id == id {
                Some(jobs.len() - 1)
            } else {
                None
            },
        }
    }
}

/// Some jobs with one more, in the place of one of the same id where there is
/// one.
pub open spec fn with_job(jobs: Seq<RecordView>, r: RecordView) -> Seq<RecordView> {
    match position(jobs, r.id) {
        Some(i) => jobs.update(i, r),
        None => jobs.push(r),
    }
}

/// The job of an id.
pub open spec fn job(jobs: Seq<RecordView>, id: Seq<char>) -> Option<RecordView> {
    match position(jobs, id) {
        Some(i) => Some(jobs[i]),
        None => None,
    }
}

/// The id of a job: when it was submitted, and its number.
pub open spec fn job_id(now: i64, seq: u64) -> Seq<char> {
    "job_"@ + signed_decimal(now as int) + "_"@ + zero_padded(decimal(seq as nat), 4)
}

/// Whether a job was submitted after another, or under a greater id at the same
/// time; or is the other.
pub open spec fn newer(a: RecordView, b: RecordView) -> bool {
    a.submitted_at_ms > b.submitted_at_ms || (a.submitted_at_ms == b.submitted_at_ms && text_le(
        b.id,
        a.id,
    ))
}

/// Whether jobs stand newest first.
pub open spec fn newest_first(jobs: Seq<RecordView>) -> bool {
    forall|i: int, j: int| 0 <= i < j < jobs.len() ==> newer(#[trigger] jobs[i], #[trigger] jobs[j])
}

/// The jobs of a server.
#[derive(Debug)]
pub struct JobRegistry {
    jobs: Vec<JobRecord>,
    counter: u64,
}

proof fn lemma_position(jobs: Seq<RecordView>, id: Seq<char>)
    ensures
        position(jobs, id) matches Some(i) ==> 0 <= i < jobs.len() && jobs[i].id == id,
        position(jobs, id) is None ==> forall|i: int|
            0 <= i < jobs.len() ==> (#[trigger] jobs[i]).id != id,
    decreases jobs.len(),
{
    if jobs.len() > 0 {
        let rest = jobs.drop_last();
        lemma_position(rest, id);
        if position(jobs, id) is None {
            assert forall|i: int| 0 <= i < jobs.len() implies (#[trigger] jobs[i]).id != id by {
                if i < rest.len() {
                    assert(rest[i] == jobs[i]);
                }
            }
        }
    }
}

proof fn lemma_position_prefix(jobs: Seq<RecordView>, n: int, id: Seq<char>)
    requires
        0 <= n <= jobs.len(),
        position(jobs.take(n), id) is Some,
    ensures
        position(jobs, id) == position(jobs.take(n), id),
    decreases jobs.len(),
{
    if n == jobs.len() {
        assert(jobs.take(n) == jobs);
    } else {
        assert(jobs.drop_last().take(n) == jobs.take(n));
        lemma_position_prefix(jobs.drop_last(), n, id);
    }
}

impl JobRegistry {
    /// The jobs, in the order in which they came to be known.
    pub closed spec fn list(&self) -> Seq<RecordView> {
        record_views(self.jobs@)
    }

    /// The number of the next job.
    pub closed spec fn next(&self) -> u64 {
        self.counter
    }

    pub fn new() -> (r: Self)
        ensures
            r.list() == Seq::<RecordView>::empty(),
            r.next() == 0,
    {
        let r = JobRegistry { jobs: Vec::new(), counter: 0 };
        assert(r.list() =~= Seq::<RecordView>::empty());
        r
    }

    fn find(&self, id: &str) -> (r: Option<usize>)
        ensures
            match r {
                Some(i) => i < self.jobs.len() && position(self.list(), id@) == Some(i as int),
                None => position(self.list(), id@) is None,
            },
    {
        let ghost all = record_views(self.jobs@);
        let mut i: usize = 0;
        while i < self.jobs.len()
            invariant
                i <= self.jobs.len(),
                all == record_views(self.jobs@),
                position(all.take(i as int), id@) is None,
            decreases self.jobs.len() - i,
        {
            assert(all.take(i + 1).drop_last() == all.take(i as int));
            assert(all.take(i + 1).last() == self.jobs@[i as int]@);
            if same(self.jobs[i].id.as_str(), id) {
                proof {
                    lemma_position_prefix(all, i + 1, id@);
                }
                return Some(i);
            }
            i += 1;
        }
        assert(all.take(i as int) == all);
        None
    }

    /// Makes a job known by its record, in place of one of the same id.
    pub fn enroll(&mut self, record: JobRecord)
        ensures
            final(self).list() == with_job(old(self).list(), record@),
            final(self).next() == old(self).next(),
    {
        let ghost before = record_views(self.jobs@);
        match self.find(record.id.as_str()) {
            Some(i) => {
                self.jobs.set(i, record);
                assert(record_views(self.jobs@) =~= before.update(i as int, record@));
            },
            None => {
                self.jobs.push(record);
                assert(record_views(self.jobs@) =~= before.push(record@));
            },
        }
    }

    /// Takes in a job left on disk by an earlier process, and says whether its
    /// record changed.
    pub fn recover(&mut self, record: JobRecord, now: i64) -> (r: bool)
        ensures
            r == !record.status.over(),
            final(self).list() == with_job(old(self).list(), recovered(record@, now)),
            final(self).next() == old(self).next(),
    {
        if record.status.is_terminal() {
            self.enroll(record);
            return false;
        }
        let mut record = record;
        record.status = JobStatus::Interrupted;
        record.finished_at_ms = Some(now);
        record.error = Some(RESTARTED.to_owned());
        record.result_path = None;
        self.enroll(record);
        true
    }

    /// The record of a new job. It is not known yet: what it says goes to disk
    /// first, and where that fails there is no job.
    pub fn prepare(&mut self, sql: &str, now: i64) -> (r: JobRecord)
        ensures
            r@ == queued(job_id(now, old(self).next()), sql@, now),
            final(self).list() == old(self).list(),
            final(self).next() == old(self).next().wrapping_add(1),
    {
        let seq: u64 = self.counter;
        self.counter = seq.wrapping_add(1);
        let when = signed_of(now);
        let mut id: String = concat3("job_", when.as_str(), "_");
        let digits = decimal_of(seq);
        let number = pad_zeros(&digits, 4);
        id.append(number.as_str());
        JobRecord::new(id, sql.to_owned(), now)
    }

    /// Registers a job, and gives its id.
    pub fn create(&mut self, sql: &str, now: i64) -> (r: String)
        ensures
            r@ == job_id(now, old(self).next()),
            final(self).list() == with_job(old(self).list(), queued(r@, sql@, now)),
            final(self).next() == old(self).next().wrapping_add(1),
    {
        let record = self.prepare(sql, now);
        let id = record.id.clone();
        self.enroll(record);
        id
    }

    /// Moves a job to `running`, or refuses if it is over: it was called off
    /// while it waited for a slot. Says whether to do the work.
    pub fn start(&mut self, id: &str, now: i64) -> (r: bool)
        ensures
            final(self).next() == old(self).next(),
            match position(old(self).list(), id@) {
                None => !r && final(self).list() == old(self).list(),
                Some(i) => if old(self).list()[i].status.over() {
                    !r && final(self).list() == old(self).list()
                } else {
                    r && final(self).list() == old(self).list().update(
                        i,
                        started(old(self).list()[i], now),
                    )
                },
            },
    {
        let ghost before = record_views(self.jobs@);
        match self.find(id) {
            None => false,
            Some(i) => {
                assert(before[i as int] == self.jobs@[i as int]@);
                if self.jobs[i].status.is_terminal() {
                    return false;
                }
                self.jobs[i].status = JobStatus::Running;
                self.jobs[i].started_at_ms = Some(now);
                assert(record_views(self.jobs@) =~= before.update(
                    i as int,
                    started(before[i as int], now),
                ));
                true
            },
        }
    }

    /// Sets the record of a job that is known.
    pub fn update(&mut self, record: JobRecord)
        ensures
            final(self).next() == old(self).next(),
            match position(old(self).list(), record@.id) {
                None => final(self).list() == old(self).list(),
                Some(i) => final(self).list() == old(self).list().update(i, record@),
            },
    {
        let ghost before = record_views(self.jobs@);
        if let Some(i) = self.find(record.id.as_str()) {
            self.jobs.set(i, record);
            assert(record_views(self.jobs@) =~= before.update(i as int, record@));
        }
    }

    /// Takes in a progress event of a job.
    pub fn observe(&mut self, id: &str, event: &ProgressEvent)
        ensures
            final(self).next() == old(self).next(),
            match position(old(self).list(), id@) {
                None => final(self).list() == old(self).list(),
                Some(i) => final(self).list() == old(self).list().update(
                    i,
                    progressed(old(self).list()[i], *event),
                ),
            },
    {
        let ghost before = record_views(self.jobs@);
        if let Some(i) = self.find(id) {
            assert(before[i as int] == self.jobs@[i as int]@);
            self.jobs[i].progress = Some(event.line());
            match event {
                ProgressEvent::Plan(_) => {},
                ProgressEvent::Funnel(counts) => {
                    self.jobs[i].funnel = *counts;
                },
                ProgressEvent::Done(counts) => {
                    self.jobs[i].funnel = *counts;
                },
            }
            assert(record_views(self.jobs@) =~= before.update(
                i as int,
                progressed(before[i as int], *event),
            ));
        }
    }

    /// Writes down how a job's statement went, unless the job was over before.
    pub fn finish(&mut self, id: &str, outcome: Outcome, now: i64)
        ensures
            final(self).next() == old(self).next(),
            match position(old(self).list(), id@) {
                None => final(self).list() == old(self).list(),
                Some(i) => final(self).list() == old(self).list().update(
                    i,
                    finished(old(self).list()[i], outcome, now),
                ),
            },
    {
        let ghost before = record_views(self.jobs@);
        let ghost given = outcome;
        if let Some(i) = self.find(id) {
            assert(before[i as int] == self.jobs@[i as int]@);
            if self.jobs[i].status.is_terminal() {
                assert(before =~= before.update(i as int, before[i as int]));
                return ;
            }
            self.jobs[i].finished_at_ms = Some(now);
            match outcome {
                Outcome::Written { path, rows } => {
                    self.jobs[i].status = JobStatus::Succeeded;
                    self.jobs[i].rows = Some(rows as i64);
                    self.jobs[i].result_path = Some(path);
                },
                Outcome::Command { tag } => {
                    self.jobs[i].status = JobStatus::Succeeded;
                    self.jobs[i].command_tag = Some(tag);
                },
                Outcome::Buffered => {
                    self.jobs[i].status = JobStatus::Failed;
                    self.jobs[i].error = Some(BUFFERED.to_owned());
                },
                Outcome::Failed { message } => {
                    self.jobs[i].status = JobStatus::Failed;
                    self.jobs[i].error = Some(message);
                    self.jobs[i].result_path = None;
                },
            }
            assert(record_views(self.jobs@) =~= before.update(
                i as int,
                finished(before[i as int], given, now),
            ));
        }
    }

    /// The record of a job.
    pub fn get(&self, id: &str) -> (r: Option<JobRecord>)
        ensures
            match r {
                Some(record) => job(self.list(), id@) == Some(record@),
                None => job(self.list(), id@) is None,
            },
    {
        match self.find(id) {
            Some(i) => {
                assert(self.list()[i as int] == self.jobs@[i as int]@);
                Some(self.jobs[i].copy())
            },
            None => None,
        }
    }

    /// Calls off a queued or running job.
    pub fn cancel(&mut self, id: &str, now: i64) -> (r: Result<(), String>)
        ensures
            final(self).next() == old(self).next(),
            match position(old(self).list(), id@) {
                None => final(self).list() == old(self).list() && (r matches Err(e) && e@
                    == "no such job: "@ + id@),
                Some(i) => if old(self).list()[i].status.over() {
                    final(self).list() == old(self).list() && (r matches Err(e) && e@ == "job "@
                        + id@ + " already finished ("@ + old(self).list()[i].status.word() + ")"@)
                } else {
                    r is Ok && final(self).list() == old(self).list().update(
                        i,
                        cancelled(old(self).list()[i], now),
                    )
                },
            },
    {
        let ghost before = record_views(self.jobs@);
        match self.find(id) {
            None => Err("no such job: ".to_owned().concat(id)),
            Some(i) => {
                assert(before[i as int] == self.jobs@[i as int]@);
                if self.jobs[i].status.is_terminal() {
                    let mut message: String = concat3("job ", id, " already finished (");
                    message.append(self.jobs[i].status.as_str());
                    message.append(")");
                    return Err(message);
                }
                self.jobs[i].status = JobStatus::Cancelled;
                self.jobs[i].finished_at_ms = Some(now);
                self.jobs[i].result_path = None;
                assert(record_views(self.jobs@) =~= before.update(
                    i as int,
                    cancelled(before[i as int], now),
                ));
                Ok(())
            },
        }
    }

    /// Every record, newest first.
    pub fn snapshot(&self) -> (r: Vec<JobRecord>)
        ensures
            newest_first(record_views(r@)),
            record_views(r@).to_multiset() == self.list().to_multiset(),
    {
        let ghost all = self.list();
        let mut out: Vec<JobRecord> = Vec::new();
        let mut i: usize = 0;
        assert(record_views(out@) =~= all.take(0));
        while i < self.jobs.len()
            invariant
                i <= self.jobs.len(),
                all == record_views(self.jobs@),
                newest_first(record_views(out@)),
                record_views(out@).to_multiset() == all.take(i as int).to_multiset(),
            decreases self.jobs.len() - i,
        {
            let ghost x = self.jobs@[i as int]@;
            proof {
                assert(all.take(i + 1) =~= all.take(i as int).push(x));
                to_multiset_build(all.take(i as int), x);
            }
            insert(&mut out, self.jobs[i].copy());
            i += 1;
        }
        assert(all.take(i as int) =~= all);
        out
    }
}

fn is_newer(a: &JobRecord, b: &JobRecord) -> (r: bool)
    ensures
        r == newer(a@, b@),
{
    a.submitted_at_ms > b.submitted_at_ms || (a.submitted_at_ms == b.submitted_at_ms
        && text_precedes(b.id.as_str(), a.id.as_str()))
}

proof fn lemma_newer(a: RecordView, b: RecordView, c: RecordView)
    ensures
        newer(a, b) || newer(b, a),
        newer(a, b) && newer(b, c) ==> newer(a, c),
{
    text_order_is_total(a.id, b.id);
    if newer(a, b) && newer(b, c) && a.submitted_at_ms == b.submitted_at_ms && b.submitted_at_ms
        == c.submitted_at_ms {
        text_order_is_transitive(c.id, b.id, a.id);
    }
}

/// Puts a record in its place among records that stand newest first.
fn insert(out: &mut Vec<JobRecord>, record: JobRecord)
    requires
        newest_first(record_views(old(out)@)),
    ensures
        newest_first(record_views(final(out)@)),
        record_views(final(out)@).to_multiset() == record_views(old(out)@).to_multiset().insert(
            record@,
        ),
{
    let ghost s = record_views(out@);
    let ghost x = record@;
    let mut k: usize = 0;
    while k < out.len() && is_newer(&out[k], &record)
        invariant
            k <= out.len(),
            s == record_views(out@),
            x == record@,
            forall|i: int| 0 <= i < k ==> newer(#[trigger] s[i], x),
        decreases out.len() - k,
    {
        assert(s[k as int] == out@[k as int]@);
        k += 1;
    }
    proof {
        if k < s.len() {
            assert(s[k as int] == out@[k as int]@);
            assert forall|j: int| k <= j < s.len() implies newer(x, #[trigger] s[j]) by {
                lemma_newer(s[k as int], x, x);
                lemma_newer(x, s[k as int], s[j]);
                if j > k {
                    assert(newer(s[k as int], s[j]));
                }
            }
        }
    }
    out.insert(k, record);
    proof {
        let t = record_views(out@);
        assert(t =~= s.insert(k as int, x));
        assert forall|i: int, j: int| 0 <= i < j < t.len() implies newer(
            #[trigger] t[i],
            #[trigger] t[j],
        ) by {
            let a = if i < k {
                i
            } else {
                i - 1
            };
            let b = if j < k {
                j
            } else {
                j - 1
            };
            if i < k && j < k {
                assert(newer(s[i], s[j]));
            } else if i < k && j == k {
                assert(newer(s[i], x));
            } else if i < k {
                assert(newer(s[i], s[j - 1]));
            } else if i == k {
                assert(newer(x, s[j - 1]));
            } else {
                assert(newer(s[i - 1], s[j - 1]));
            }
        }
        let front = s.take(k as int);
        let back = s.skip(k as int);
        assert(s =~= front + back);
        assert(t =~= front.push(x) + back);
        lemma_multiset_commutative(front, back);
        lemma_multiset_commutative(front.push(x), back);
        to_multiset_build(front, x);
        assert(t.to_multiset() =~= s.to_multiset().insert(x));
    }
}

/// The milliseconds of a span since the Unix epoch, and zero where there is no
/// such span.
pub fn millis_of(since: Option<Delay>) -> (r: i64)
    requires
        since matches Some(d) ==> d.wf(),
    ensures
        r == match since {
            Some(d) => (d.total() / 1_000_000) as i64,
            None => 0,
        },
{
    match since {
        Some(d) => d.millis() as i64,
        None => 0,
    }
}

/// The milliseconds of a moment since the Unix epoch, and zero before it.
pub open spec fn millis_at(t: SystemTime) -> i64 {
    if moment(t) < 0 {
        0
    } else {
        (moment(t) / 1_000_000) as i64
    }
}

/// The time on the wall clock, and zero on a clock that is set to a moment
/// before the Unix epoch: the milliseconds of the moment that the clock shows,
/// whichever it is.
pub fn now_ms() -> (r: i64)
    ensures
        exists|t: SystemTime| r == #[trigger] millis_at(t),
{
    let t = system_now();
    let r: i64 = millis_of(since_epoch(&t));
    assert(r == millis_at(t));
    r
}

/// A job that is over stays as it is: it is neither started nor finished again,
/// and a restart leaves it alone.
pub proof fn what_is_over_stays_as_it_is(r: RecordView, outcome: Outcome, now: i64)
    requires
        r.status.over(),
    ensures
        finished(r, outcome, now) == r,
        recovered(r, now) == r,
{
}

/// A job that was called off is over, and so is one that was in flight when the
/// server restarted; neither keeps a result. What progress they made is kept.
pub proof fn a_stopped_job_keeps_its_progress_and_no_result(r: RecordView, now: i64)
    requires
        !r.status.over(),
    ensures
        cancelled(r, now).status == JobStatus::Cancelled,
        recovered(r, now).status == JobStatus::Interrupted,
        cancelled(r, now).status.over() && recovered(r, now).status.over(),
        cancelled(r, now).result_path is None && recovered(r, now).result_path is None,
        cancelled(r, now).progress == r.progress && recovered(r, now).progress == r.progress,
        cancelled(r, now).funnel == r.funnel && recovered(r, now).funnel == r.funnel,
{
}

/// A finished job says so, and says when.
pub proof fn a_finished_job_is_over(r: RecordView, outcome: Outcome, now: i64)
    requires
        !r.status.over(),
    ensures
        finished(r, outcome, now).status.over(),
        finished(r, outcome, now).finished_at_ms == Some(now),
{
}

/// Putting a job in keeps the ids apart.
pub proof fn ids_stay_apart(jobs: Seq<RecordView>, r: RecordView)
    requires
        forall|i: int, j: int|
            0 <= i < j < jobs.len() ==> (#[trigger] jobs[i]).id != (#[trigger] jobs[j]).id,
    ensures
        forall|i: int, j: int|
            0 <= i < j < with_job(jobs, r).len() ==> (#[trigger] with_job(jobs, r)[i]).id != (
            #[trigger] with_job(jobs, r)[j]).id,
{
    lemma_position(jobs, r.id);
}

proof fn lemma_same_ids(a: Seq<RecordView>, b: Seq<RecordView>, id: Seq<char>)
    requires
        a.len() == b.len(),
        forall|k: int| 0 <= k < a.len() ==> (#[trigger] a[k]).id == b[k].id,
    ensures
        position(a, id) == position(b, id),
    decreases a.len(),
{
    if a.len() > 0 {
        let (x, y) = (a.drop_last(), b.drop_last());
        assert forall|k: int| 0 <= k < x.len() implies (#[trigger] x[k]).id == y[k].id by {
            assert(x[k] == a[k] && y[k] == b[k]);
        }
        lemma_same_ids(x, y, id);
        assert(a[a.len() - 1].id == b[b.len() - 1].id);
    }
}

/// The job that was put in is the job of its id, and the others are as they
/// were.
pub proof fn a_job_is_found_as_it_was_put(jobs: Seq<RecordView>, r: RecordView, id: Seq<char>)
    ensures
        job(with_job(jobs, r), r.id) == Some(r),
        id != r.id ==> job(with_job(jobs, r), id) == job(jobs, id),
{
    lemma_position(jobs, r.id);
    lemma_position(jobs, id);
    let now = with_job(jobs, r);
    if position(jobs, r.id) is None {
        assert(now.drop_last() =~= jobs);
    } else {
        lemma_same_ids(now, jobs, r.id);
        lemma_same_ids(now, jobs, id);
    }
}

/// A job that was called off never starts: whoever looks for it finds it over.
pub proof fn a_cancelled_job_never_starts(jobs: Seq<RecordView>, id: Seq<char>, now: i64)
    requires
        position(jobs, id) is Some,
    ensures
        ({
            let i = position(jobs, id)->0;
            let after = jobs.update(i, cancelled(jobs[i], now));
            position(after, id) == Some(i) && after[i].status.over()
        }),
{
    lemma_position(jobs, id);
    let i = position(jobs, id)->0;
    lemma_same_ids(jobs.update(i, cancelled(jobs[i], now)), jobs, id);
}

proof fn lemma_padded(s: Seq<char>, width: nat)
    requires
        forall|i: int| 0 <= i < s.len() ==> is_digit(#[trigger] s[i]),
    ensures
        digits_value(zero_padded(s, width)) == digits_value(s),
        forall|i: int|
            0 <= i < zero_padded(s, width).len() ==> is_digit(#[trigger] zero_padded(s, width)[i]),
    decreases s.len(),
{
    let p = zero_padded(s, width);
    if s.len() < width {
        let zeros = Seq::new((width - s.len()) as nat, |i: int| '0');
        assert(p =~= zeros + s);
        lemma_leading_zeros(s, (width - s.len()) as nat);
    }
}

proof fn lemma_leading_zeros(s: Seq<char>, n: nat)
    ensures
        digits_value(Seq::new(n, |i: int| '0') + s) == digits_value(s),
    decreases s.len() + n,
{
    let zeros = Seq::new(n, |i: int| '0');
    let p = zeros + s;
    if s.len() > 0 {
        lemma_leading_zeros(s.drop_last(), n);
        assert(p.drop_last() =~= zeros + s.drop_last());
        assert(p.last() == s.last());
    } else if n > 0 {
        let fewer = Seq::new((n - 1) as nat, |i: int| '0');
        lemma_leading_zeros(s, (n - 1) as nat);
        assert(p.drop_last() =~= fewer + s);
        assert(p.last() == '0');
    } else {
        assert(p =~= s);
    }
}

proof fn lemma_signed(a: int, b: int)
    ensures
        signed_decimal(a) == signed_decimal(b) ==> a == b,
        forall|i: int|
            0 <= i < signed_decimal(a).len() ==> #[trigger] signed_decimal(a)[i] != '_',
{
    reveal_strlit("-");
    let x = if a < 0 {
        (-a) as nat
    } else {
        a as nat
    };
    let y = if b < 0 {
        (-b) as nat
    } else {
        b as nat
    };
    decimal_is_digits(x);
    decimal_is_digits(y);
    let s = signed_decimal(a);
    let t = signed_decimal(b);
    assert forall|i: int| 0 <= i < s.len() implies #[trigger] s[i] != '_' by {
        if a < 0 {
            if i > 0 {
                assert(s[i] == decimal(x)[i - 1]);
                assert(is_digit(decimal(x)[i - 1]));
            }
        } else {
            assert(is_digit(decimal(x)[i]));
        }
    }
    if s == t {
        if a < 0 {
            assert(s[0] == '-');
            if b >= 0 {
                assert(is_digit(decimal(y)[0]));
            }
            assert(s.skip(1) =~= decimal(x));
            assert(t.skip(1) =~= decimal(y));
        } else if b < 0 {
            assert(t[0] == '-');
            assert(is_digit(decimal(x)[0]));
        }
        decimal_is_injective(x, y);
    }
}

/// Two jobs never share an id, unless they were submitted at the same time under
/// the same number.
pub proof fn job_ids_never_collide(a: i64, m: u64, b: i64, n: u64)
    requires
        job_id(a, m) == job_id(b, n),
    ensures
        a == b,
        m == n,
{
    reveal_strlit("job_");
    reveal_strlit("_");
    let (x, y) = (job_id(a, m), job_id(b, n));
    let (s, t) = (signed_decimal(a as int), signed_decimal(b as int));
    let (p, q) = (zero_padded(decimal(m as nat), 4), zero_padded(decimal(n as nat), 4));
    let (j, k) = (s.len() as int, t.len() as int);
    lemma_signed(a as int, b as int);
    lemma_signed(b as int, a as int);
    assert(x[4 + j] == '_');
    assert(y[4 + k] == '_');
    if j < k {
        assert(y[4 + j] == t[j]);
    } else if k < j {
        assert(x[4 + k] == s[k]);
    }
    assert(s =~= t) by {
        assert forall|i: int| 0 <= i < s.len() implies s[i] == t[i] by {
            assert(x[4 + i] == s[i] && y[4 + i] == t[i]);
        }
    }
    assert(x.skip(5 + j) =~= p);
    assert(y.skip(5 + k) =~= q);
    decimal_is_digits(m as nat);
    decimal_is_digits(n as nat);
    lemma_padded(decimal(m as nat), 4);
    lemma_padded(decimal(n as nat), 4);
    decimal_reads_back(m as nat);
    decimal_reads_back(n as nat);
}

/// A job succeeds where its statement did, and says what came of it: the file and
/// the number of its rows, the tag of a command, or why there is neither. What was
/// known of the job before stays.
pub proof fn a_job_says_what_came_of_it(r: RecordView, outcome: Outcome, now: i64)
    requires
        !r.status.over(),
        r.error is None,
        r.result_path is None,
    ensures
        finished(r, outcome, now).status == JobStatus::Succeeded <==> outcome is Written
            || outcome is Command,
        finished(r, outcome, now).error is Some <==> finished(r, outcome, now).status
            == JobStatus::Failed,
        outcome matches Outcome::Failed { message } ==> finished(r, outcome, now).error == Some(
            message@,
        ),
        finished(r, outcome, now).result_path is Some <==> outcome is Written,
        outcome matches Outcome::Written { path, rows } ==> finished(
            r,
            outcome,
            now,
        ).result_path == Some(path@) && (rows <= i64::MAX ==> finished(r, outcome, now).rows
            == Some(rows as i64)),
        outcome matches Outcome::Command { tag } ==> finished(r, outcome, now).command_tag == Some(
            tag@,
        ),
        finished(r, outcome, now).id == r.id && finished(r, outcome, now).sql == r.sql,
        finished(r, outcome, now).submitted_at_ms == r.submitted_at_ms,
        finished(r, outcome, now).started_at_ms == r.started_at_ms,
        finished(r, outcome, now).progress == r.progress && finished(r, outcome, now).funnel
            == r.funnel,
{
}

/// A job that starts was waiting and is not over; when it was submitted, under what
/// id and for which statement is not touched.
pub proof fn a_started_job_runs(r: RecordView, now: i64)
    ensures
        started(r, now).status == JobStatus::Running && !started(r, now).status.over(),
        started(r, now).started_at_ms == Some(now),
        started(r, now).id == r.id && started(r, now).sql == r.sql,
        started(r, now).submitted_at_ms == r.submitted_at_ms,
        started(r, now).finished_at_ms == r.finished_at_ms,
        started(r, now).funnel == r.funnel && started(r, now).progress == r.progress,
{
}

/// Progress changes what is shown of a job and nothing else: the line is that of the
/// newest event, and the counts are those of the newest event that has any.
pub proof fn progress_is_all_that_progress_changes(
    r: RecordView,
    first: ProgressEvent,
    then: ProgressEvent,
)
    ensures
        progressed(r, first).status == r.status && progressed(r, first).id == r.id,
        progressed(r, first).error == r.error && progressed(r, first).rows == r.rows,
        progressed(r, first).result_path == r.result_path,
        progressed(r, first).finished_at_ms == r.finished_at_ms,
        progressed(progressed(r, first), then).progress == Some(then.shown()),
        then is Plan ==> progressed(progressed(r, first), then).funnel == progressed(
            r,
            first,
        ).funnel,
        !(then is Plan) ==> progressed(progressed(r, first), then) == progressed(r, then),
        first matches ProgressEvent::Funnel(counts) ==> progressed(r, first).funnel == counts,
        first matches ProgressEvent::Done(counts) ==> progressed(r, first).funnel == counts,
{
}

/// A job is found by its id, and by no other; the first of that id is found.
pub proof fn a_job_is_found_by_its_id(jobs: Seq<RecordView>, id: Seq<char>)
    ensures
        job(jobs, id) is Some <==> exists|i: int| 0 <= i < jobs.len() && (#[trigger] jobs[i]).id == id,
        job(jobs, id) matches Some(r) ==> r.id == id && jobs.contains(r),
{
    lemma_position(jobs, id);
    if let Some(i) = position(jobs, id) {
        assert(jobs[i].id == id);
    }
}

/// Jobs that stand newest first were submitted later the earlier they stand.
pub proof fn the_newest_jobs_come_first(jobs: Seq<RecordView>, i: int, j: int)
    requires
        newest_first(jobs),
        0 <= i < j < jobs.len(),
    ensures
        jobs[i].submitted_at_ms >= jobs[j].submitted_at_ms,
        jobs[i].submitted_at_ms == jobs[j].submitted_at_ms ==> text_le(jobs[j].id, jobs[i].id),
{
    assert(newer(jobs[i], jobs[j]));
}

/// No two statuses share a word.
pub proof fn every_status_has_its_own_word(a: JobStatus, b: JobStatus)
    requires
        a.word() == b.word(),
    ensures
        a == b,
{
    reveal_strlit("queued");
    reveal_strlit("running");
    reveal_strlit("succeeded");
    reveal_strlit("failed");
    reveal_strlit("cancelled");
    reveal_strlit("interrupted");
    assert("queued"@[0] == 'q' && "running"@[0] == 'r' && "succeeded"@[0] == 's');
    assert("failed"@[0] == 'f' && "cancelled"@[0] == 'c' && "interrupted"@[0] == 'i');
    assert(a.word()[0] == b.word()[0]);
}

}
