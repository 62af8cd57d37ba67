//! The queryable half of batch jobs: `semcast_jobs` and `job_result('<id>')`.

use vstd::prelude::*;

use crate::server::jobs::{cancelled, finished, recovered, started, JobRecord, Outcome, RecordView};
use crate::text::{a_framed_text_stands_in_the_whole, concat3, occurs_in, opt_view, views};

verus! {

pub const ONE_ARGUMENT: &'static str = "job_result takes one argument: job_result('<job_id>')";

/// Where the rows of a job are, or the message of why there are none.
pub open spec fn result_of(id: Seq<char>, record: Option<RecordView>) -> Result<
    Seq<char>,
    Seq<char>,
> {
    match record {
        None => Err("no such job: "@ + id),
        Some(r) => match r.result_path {
            Some(path) => Ok(path),
            None => match r.command_tag {
                Some(tag) => Err("job "@ + id + " ran `"@ + tag + "`, which produces no rows"@),
                None => if !r.status.over() {
                    Err("job "@ + id + " is "@ + r.status.word() + " \u{2014} no result yet"@)
                } else {
                    Err("job "@ + id + " is "@ + r.status.word() + " and produced no result"@)
                },
            },
        },
    }
}

/// The view of an optional record.
pub open spec fn opt_record(r: Option<JobRecord>) -> Option<RecordView> {
    match r {
        Some(r) => Some(r@),
        None => None,
    }
}

/// Where the rows of a finished job are, or why there are none.
pub fn result_path(id: &str, record: &Option<JobRecord>) -> (r: Result<String, String>)
    ensures
        match r {
            Ok(path) => result_of(id@, opt_record(*record)) == Ok::<Seq<char>, Seq<char>>(path@),
            Err(e) => result_of(id@, opt_record(*record)) == Err::<Seq<char>, Seq<char>>(e@),
        },
{
    match record {
        None => Err("no such job: ".to_owned().concat(id)),
        Some(record) => match &record.result_path {
            Some(path) => Ok(path.clone()),
            // A command succeeded but has no result shape: say so, rather than
            // report a missing file.
            None => match &record.command_tag {
                Some(tag) => {
                    let mut message: String = concat3("job ", id, " ran `");
                    message.append(tag.as_str());
                    message.append("`, which produces no rows");
                    Err(message)
                },
                None => {
                    let mut message: String = concat3("job ", id, " is ");
                    message.append(record.status.as_str());
                    if record.status.is_terminal() {
                        message.append(" and produced no result");
                    } else {
                        message.append(" \u{2014} no result yet");
                    }
                    Err(message)
                },
            },
        },
    }
}

/// A cell of the table of jobs.
#[derive(Debug)]
pub enum Cell {
    Text(Option<String>),
    /// A time in milliseconds since the Unix epoch.
    Time(Option<i64>),
    Number(Option<i64>),
}

/// What a [`Cell`] shows.
pub enum CellView {
    Text(Option<Seq<char>>),
    Time(Option<i64>),
    Number(Option<i64>),
}

impl View for Cell {
    type V = CellView;

    open spec fn view(&self) -> CellView {
        match *self {
            Cell::Text(s) => CellView::Text(opt_view(s)),
            Cell::Time(t) => CellView::Time(t),
            Cell::Number(n) => CellView::Number(n),
        }
    }
}

pub open spec fn cell_views(cells: Seq<Cell>) -> Seq<CellView> {
    cells.map_values(|c: Cell| c@)
}

/// The names of the columns of the table of jobs.
pub open spec fn column_list() -> Seq<Seq<char>> {
    seq![
        "job_id"@,
        "status"@,
        "sql"@,
        "submitted_at"@,
        "started_at"@,
        "finished_at"@,
        "rows"@,
        "command_tag"@,
        "error"@,
        "progress"@,
        "index_hits"@,
        "rows_pruned"@,
        "model_calls"@,
        "cache_hits"@,
        "extract_model_calls"@,
        "result_path"@,
    ]
}

/// The row of a job in the table of jobs.
pub open spec fn row_view(r: RecordView) -> Seq<CellView> {
    seq![
        CellView::Text(Some(r.id)),
        CellView::Text(Some(r.status.word())),
        CellView::Text(Some(r.sql)),
        CellView::Time(Some(r.submitted_at_ms)),
        CellView::Time(r.started_at_ms),
        CellView::Time(r.finished_at_ms),
        CellView::Number(r.rows),
        CellView::Text(r.command_tag),
        CellView::Text(r.error),
        CellView::Text(r.progress),
        CellView::Number(Some(r.funnel.index_hits as i64)),
        CellView::Number(Some(r.funnel.rows_pruned as i64)),
        CellView::Number(Some(r.funnel.model_calls as i64)),
        CellView::Number(Some(r.funnel.cache_hits as i64)),
        CellView::Number(Some(r.funnel.extract_model_calls as i64)),
        CellView::Text(r.result_path),
    ]
}

/// The names of the columns of the table of jobs.
pub fn column_names() -> (r: Vec<String>)
    ensures
        views(r@) == column_list(),
{
    let mut out: Vec<String> = Vec::new();
    out.push("job_id".to_owned());
    out.push("status".to_owned());
    out.push("sql".to_owned());
    out.push("submitted_at".to_owned());
    out.push("started_at".to_owned());
    out.push("finished_at".to_owned());
    out.push("rows".to_owned());
    out.push("command_tag".to_owned());
    out.push("error".to_owned());
    out.push("progress".to_owned());
    out.push("index_hits".to_owned());
    out.push("rows_pruned".to_owned());
    out.push("model_calls".to_owned());
    out.push("cache_hits".to_owned());
    out.push("extract_model_calls".to_owned());
    out.push("result_path".to_owned());
    assert(views(out@) =~= column_list());
    out
}

/// The row of a job in the table of jobs.
pub fn job_row(record: JobRecord) -> (r: Vec<Cell>)
    ensures
        cell_views(r@) == row_view(record@),
{
    let ghost want = row_view(record@);
    let mut out: Vec<Cell> = Vec::new();
    out.push(Cell::Text(Some(record.id)));
    out.push(Cell::Text(Some(record.status.as_str().to_owned())));
    out.push(Cell::Text(Some(record.sql)));
    out.push(Cell::Time(Some(record.submitted_at_ms)));
    out.push(Cell::Time(record.started_at_ms));
    out.push(Cell::Time(record.finished_at_ms));
    out.push(Cell::Number(record.rows));
    out.push(Cell::Text(record.command_tag));
    out.push(Cell::Text(record.error));
    out.push(Cell::Text(record.progress));
    out.push(Cell::Number(Some(record.funnel.index_hits as i64)));
    out.push(Cell::Number(Some(record.funnel.rows_pruned as i64)));
    out.push(Cell::Number(Some(record.funnel.model_calls as i64)));
    out.push(Cell::Number(Some(record.funnel.cache_hits as i64)));
    out.push(Cell::Number(Some(record.funnel.extract_model_calls as i64)));
    out.push(Cell::Text(record.result_path));
    assert(cell_views(out@) =~= want);
    out
}

/// A row has a cell for every column.
pub proof fn a_row_has_a_cell_for_every_column(r: RecordView)
    ensures
        row_view(r).len() == column_list().len(),
{
}

/// Every column of the table of jobs shows the part of a job that it is named after.
pub proof fn every_cell_stands_under_its_name(r: RecordView)
    ensures
        ({
            let (names, row) = (column_list(), row_view(r));
            &&& names[0] == "job_id"@ && row[0] == CellView::Text(Some(r.id))
            &&& names[1] == "status"@ && row[1] == CellView::Text(Some(r.status.word()))
            &&& names[2] == "sql"@ && row[2] == CellView::Text(Some(r.sql))
            &&& names[3] == "submitted_at"@ && row[3] == CellView::Time(Some(r.submitted_at_ms))
            &&& names[4] == "started_at"@ && row[4] == CellView::Time(r.started_at_ms)
            &&& names[5] == "finished_at"@ && row[5] == CellView::Time(r.finished_at_ms)
            &&& names[6] == "rows"@ && row[6] == CellView::Number(r.rows)
            &&& names[7] == "command_tag"@ && row[7] == CellView::Text(r.command_tag)
            &&& names[8] == "error"@ && row[8] == CellView::Text(r.error)
            &&& names[9] == "progress"@ && row[9] == CellView::Text(r.progress)
            &&& names[10] == "index_hits"@ && row[10] == CellView::Number(
                Some(r.funnel.index_hits as i64),
            )
            &&& names[11] == "rows_pruned"@ && row[11] == CellView::Number(
                Some(r.funnel.rows_pruned as i64),
            )
            &&& names[12] == "model_calls"@ && row[12] == CellView::Number(
                Some(r.funnel.model_calls as i64),
            )
            &&& names[13] == "cache_hits"@ && row[13] == CellView::Number(
                Some(r.funnel.cache_hits as i64),
            )
            &&& names[14] == "extract_model_calls"@ && row[14] == CellView::Number(
                Some(r.funnel.extract_model_calls as i64),
            )
            &&& names[15] == "result_path"@ && row[15] == CellView::Text(r.result_path)
        }),
{
}

/// A result is read from where it was written: the rows of a job whose statement
/// wrote some are found there, and a job that never ran, was called off or failed has
/// none.
pub proof fn a_result_is_read_where_it_was_written(
    id: Seq<char>,
    r: RecordView,
    outcome: Outcome,
    now: i64,
)
    requires
        !r.status.over(),
        r.result_path is None,
    ensures
        outcome matches Outcome::Written { path, .. } ==> result_of(
            id,
            Some(finished(r, outcome, now)),
        ) == Ok::<Seq<char>, Seq<char>>(path@),
        !(outcome is Written) ==> result_of(id, Some(finished(r, outcome, now))) is Err,
        result_of(id, Some(r)) is Err && result_of(id, Some(started(r, now))) is Err,
        result_of(id, Some(cancelled(r, now))) is Err && result_of(id, Some(recovered(r, now))) is Err,
        result_of(id, None) is Err,
{
}

/// Why there is no result names the job.
pub proof fn why_there_is_no_result_names_the_job(id: Seq<char>, record: Option<RecordView>)
    ensures
        result_of(id, record) matches Err(e) ==> occurs_in(id, e),
        record matches Some(r) ==> (result_of(id, record) matches Err(e) ==> (r.command_tag is None
            ==> occurs_in(r.status.word(), e)) && (r.command_tag matches Some(tag) ==> occurs_in(
            tag,
            e,
        ))),
{
    let none = Seq::<char>::empty();
    match record {
        None => {
            a_framed_text_stands_in_the_whole("no such job: "@, id, none);
            assert("no such job: "@ + id + none =~= "no such job: "@ + id);
        },
        Some(r) => {
            if let Some(tag) = r.command_tag {
                lemma_two_in_a_message(
                    "job "@,
                    id,
                    " ran `"@,
                    tag,
                    "`, which produces no rows"@,
                );
            } else {
                let end = if !r.status.over() {
                    " \u{2014} no result yet"@
                } else {
                    " and produced no result"@
                };
                lemma_two_in_a_message("job "@, id, " is "@, r.status.word(), end);
            }
        },
    }
}

proof fn lemma_two_in_a_message(
    head: Seq<char>,
    a: Seq<char>,
    between: Seq<char>,
    b: Seq<char>,
    tail: Seq<char>,
)
    ensures
        occurs_in(a, head + a + between + b + tail),
        occurs_in(b, head + a + between + b + tail),
{
    a_framed_text_stands_in_the_whole(head, a, between + b + tail);
    assert(head + a + (between + b + tail) =~= head + a + between + b + tail);
    a_framed_text_stands_in_the_whole(head + a + between, b, tail);
}

}
