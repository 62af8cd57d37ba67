//! What a client's query string is answered with, statement by statement.

use vstd::prelude::*;

use crate::error::SemcastError;
use crate::server::jobs::parse::{
    a_submitted_statement_is_untouched, cancelled, parse_cancel_job, parse_submit, submitted,
};
use crate::server::pg_catalog::{is_relation_dependency_query, walks_dependencies};
use crate::server::router::{
    classify, route_of, split_statements, statements, Route, RouteView,
};
use crate::text::{contains_text, lowered, occurs_in, to_lower, trimmed, views};

verus! {

/// How the server names its version to clients.
pub const SERVER_VERSION: &'static str = "16.6 (semcast 0.1.0)";

pub const NO_CATALOG: &'static str =
    "pg_catalog introspection is not supported yet (psql \\d commands won't work)";

/// What one statement is answered with.
#[derive(Debug)]
pub enum Answer {
    /// A command tag.
    Tag(String),
    /// One row of one text column.
    Canned { column: &'static str, value: String },
    /// The rows of a statement, by its place in the query string.
    Rows(usize),
    /// What went wrong.
    Error(String),
    /// The query string held no statement.
    Empty,
}

/// What an [`Answer`] says.
pub enum AnswerView {
    Tag(Seq<char>),
    Canned { column: Seq<char>, value: Seq<char> },
    Rows(int),
    Error(Seq<char>),
    Empty,
}

impl View for Answer {
    type V = AnswerView;

    open spec fn view(&self) -> AnswerView {
        match *self {
            Answer::Tag(tag) => AnswerView::Tag(tag@),
            Answer::Canned { column, value } => AnswerView::Canned { column: column@, value: value@ },
            Answer::Rows(i) => AnswerView::Rows(i as int),
            Answer::Error(message) => AnswerView::Error(message@),
            Answer::Empty => AnswerView::Empty,
        }
    }
}

pub open spec fn answer_views(answers: Seq<Answer>) -> Seq<AnswerView> {
    answers.map_values(|a: Answer| a@)
}

/// What the engine made of a statement.
#[derive(Debug)]
pub enum Ran {
    Rows,
    Command(String),
    Failed(String),
}

/// What a [`Ran`] says.
pub enum RanView {
    Rows,
    Command(Seq<char>),
    Failed(Seq<char>),
}

impl View for Ran {
    type V = RanView;

    open spec fn view(&self) -> RanView {
        match *self {
            Ran::Rows => RanView::Rows,
            Ran::Command(tag) => RanView::Command(tag@),
            Ran::Failed(message) => RanView::Failed(message@),
        }
    }
}

/// The answer to a statement that does not reach the engine.
pub open spec fn canned(route: RouteView, version: Seq<char>) -> Option<AnswerView> {
    match route {
        RouteView::NoOp(tag) => Some(AnswerView::Tag(tag)),
        RouteView::CannedTransactionIsolation => Some(
            AnswerView::Canned {
                column: "transaction_isolation"@,
                value: "read uncommitted"@,
            },
        ),
        RouteView::CannedServerVersion => Some(
            AnswerView::Canned { column: "server_version"@, value: version },
        ),
        RouteView::Engine => None,
    }
}

/// The answer to a statement that the engine ran.
pub open spec fn engine_answer(ran: RanView, i: int) -> AnswerView {
    match ran {
        RanView::Rows => AnswerView::Rows(i),
        RanView::Command(tag) => AnswerView::Tag(tag),
        RanView::Failed(message) => AnswerView::Error(message),
    }
}

/// Who a statement is for that is not answered from here.
#[derive(Debug)]
pub enum Dispatch {
    /// The jobs, which run the statement behind `SUBMIT`.
    Submit(String),
    /// The jobs, which cancel the one of this id.
    CancelJob(String),
    /// Nobody: it starts like `CANCEL JOB` and goes on otherwise.
    Refused(String),
    /// The catalog, which has no dependencies to list.
    NoDependencies,
    /// The engine, as it stands.
    Engine,
}

/// What a [`Dispatch`] says.
pub enum DispatchView {
    Submit(Seq<char>),
    CancelJob(Seq<char>),
    Refused(Seq<char>),
    NoDependencies,
    Engine,
}

impl View for Dispatch {
    type V = DispatchView;

    open spec fn view(&self) -> DispatchView {
        match *self {
            Dispatch::Submit(sql) => DispatchView::Submit(sql@),
            Dispatch::CancelJob(id) => DispatchView::CancelJob(id@),
            Dispatch::Refused(message) => DispatchView::Refused(message@),
            Dispatch::NoDependencies => DispatchView::NoDependencies,
            Dispatch::Engine => DispatchView::Engine,
        }
    }
}

/// Who a statement is for.
pub open spec fn dispatched(statement: Seq<char>) -> DispatchView {
    match submitted(statement) {
        Some(sql) => DispatchView::Submit(sql),
        None => match cancelled(statement) {
            Err(message) => DispatchView::Refused(message),
            Ok(Some(id)) => DispatchView::CancelJob(id),
            Ok(None) => if walks_dependencies(statement) {
                DispatchView::NoDependencies
            } else {
                DispatchView::Engine
            },
        },
    }
}

/// Decides who a statement is for.
pub fn dispatch(statement: &str) -> (r: Dispatch)
    ensures
        r@ == dispatched(statement@),
{
    match parse_submit(statement) {
        Some(sql) => Dispatch::Submit(sql),
        None => match parse_cancel_job(statement) {
            Err(message) => Dispatch::Refused(message),
            Ok(Some(id)) => Dispatch::CancelJob(id),
            Ok(None) => if is_relation_dependency_query(statement) {
                Dispatch::NoDependencies
            } else {
                Dispatch::Engine
            },
        },
    }
}

/// A query string on its way: its statements, how many of them are answered, and
/// with what.
#[derive(Debug)]
pub struct Script {
    pub list: Vec<String>,
    pub next: usize,
    pub answers: Vec<Answer>,
    /// How the server names its version.
    pub version: String,
}

/// What to do next for a query string.
#[derive(Debug)]
pub enum Act {
    /// Have the engine run the next statement.
    Run,
    /// Everything is answered.
    Send,
}

/// Where a script stands once every statement is answered that does not reach
/// the engine, up to the next that does.
pub open spec fn advanced(
    list: Seq<Seq<char>>,
    next: int,
    answers: Seq<AnswerView>,
    version: Seq<char>,
) -> (int, Seq<AnswerView>)
    decreases list.len() - next,
{
    if next >= list.len() {
        (next, answers)
    } else {
        match canned(route_of(list[next]), version) {
            Some(answer) => advanced(list, next + 1, answers.push(answer), version),
            None => (next, answers),
        }
    }
}

/// Where a script of `n` statements stands once the engine ran the next one: the
/// rest is dropped on the first error.
pub open spec fn fed(n: int, next: int, answers: Seq<AnswerView>, ran: RanView) -> (
    int,
    Seq<AnswerView>,
) {
    (
        if ran is Failed {
            n
        } else {
            next + 1
        },
        answers.push(engine_answer(ran, next)),
    )
}

fn canned_answer(route: Route, version: &String) -> (r: Option<Answer>)
    ensures
        match r {
            Some(a) => canned(route@, version@) == Some(a@),
            None => canned(route@, version@) is None,
        },
{
    match route {
        Route::NoOp(tag) => Some(Answer::Tag(tag.to_owned())),
        Route::CannedTransactionIsolation => Some(
            Answer::Canned {
                column: "transaction_isolation",
                value: "read uncommitted".to_owned(),
            },
        ),
        Route::CannedServerVersion => Some(
            Answer::Canned { column: "server_version", value: version.clone() },
        ),
        Route::Engine => None,
    }
}

impl Script {
    pub open spec fn wf(&self) -> bool {
        self.next <= self.list@.len()
    }

    /// A query string, of which nothing is answered yet.
    pub fn new(query: &str, version: String) -> (r: Script)
        ensures
            r.wf(),
            views(r.list@) == statements(query@, 0, 0),
            r.next == 0,
            answer_views(r.answers@) == Seq::<AnswerView>::empty(),
            r.version == version,
    {
        let answers: Vec<Answer> = Vec::new();
        assert(answer_views(answers@) =~= Seq::<AnswerView>::empty());
        Script { list: split_statements(query), next: 0, answers, version }
    }

    /// Answers what does not reach the engine, up to the next statement that
    /// does. A query string without any answer is answered as empty.
    pub fn advance(&mut self) -> (r: Act)
        requires
            old(self).wf(),
        ensures
            final(self).wf(),
            final(self).list == old(self).list,
            final(self).version == old(self).version,
            ({
                let (next, answers) = advanced(
                    views(old(self).list@),
                    old(self).next as int,
                    answer_views(old(self).answers@),
                    old(self).version@,
                );
                &&& final(self).next == next
                &&& (r is Run <==> next < old(self).list@.len())
                &&& answer_views(final(self).answers@) == if next == old(self).list@.len()
                    && answers.len() == 0 {
                    seq![AnswerView::Empty]
                } else {
                    answers
                }
            }),
    {
        let ghost all = views(self.list@);
        let ghost start = self.next as int;
        let ghost held = answer_views(self.answers@);
        let ghost version = self.version@;
        let ghost want = advanced(all, start, held, version);
        while self.next < self.list.len()
            invariant
                self.wf(),
                self.list == old(self).list,
                self.version == old(self).version,
                version == self.version@,
                all == views(self.list@),
                want == advanced(
                    all,
                    self.next as int,
                    answer_views(self.answers@),
                    version,
                ),
                want == advanced(
                    views(old(self).list@),
                    old(self).next as int,
                    answer_views(old(self).answers@),
                    old(self).version@,
                ),
            decreases self.list.len() - self.next,
        {
            assert(all[self.next as int] == self.list@[self.next as int]@);
            match canned_answer(classify(self.list[self.next].as_str()), &self.version) {
                None => {
                    return Act::Run;
                },
                Some(answer) => {
                    let ghost before = answer_views(self.answers@);
                    self.answers.push(answer);
                    assert(answer_views(self.answers@) =~= before.push(answer@));
                    self.next = self.next + 1;
                },
            }
        }
        assert(all.len() == self.list@.len());
        assert(answer_views(self.answers@).len() == self.answers@.len());
        if self.answers.len() == 0 {
            self.answers.push(Answer::Empty);
            assert(answer_views(self.answers@) =~= seq![AnswerView::Empty]);
        }
        Act::Send
    }

    /// Takes in what the engine made of the next statement. The rest of the
    /// query string is dropped on the first error.
    pub fn feed(&mut self, ran: Ran)
        requires
            old(self).wf(),
            old(self).next < old(self).list@.len(),
        ensures
            final(self).wf(),
            final(self).list == old(self).list,
            final(self).version == old(self).version,
            (final(self).next as int, answer_views(final(self).answers@)) == fed(
                old(self).list@.len() as int,
                old(self).next as int,
                answer_views(old(self).answers@),
                ran@,
            ),
    {
        let ghost before = answer_views(self.answers@);
        let i: usize = self.next;
        let n: usize = self.list.len();
        assert(i < n);
        let ghost want = engine_answer(ran@, i as int);
        match ran {
            Ran::Rows => {
                self.answers.push(Answer::Rows(i));
                self.next = i + 1;
            },
            Ran::Command(tag) => {
                self.answers.push(Answer::Tag(tag));
                self.next = i + 1;
            },
            Ran::Failed(message) => {
                self.answers.push(Answer::Error(message));
                self.next = n;
            },
        }
        assert(answer_views(self.answers@) =~= before.push(want));
    }
}

/// The message that a client reads when a statement fails.
pub open spec fn user_message(statement: Seq<char>, error: Seq<char>) -> Seq<char> {
    let l = lowered(statement);
    if occurs_in("pg_catalog"@, l) || occurs_in("from pg_"@, l) {
        NO_CATALOG@
    } else {
        error
    }
}

/// The message that a client reads when a statement fails.
pub fn user_error(statement: &str, error: &SemcastError) -> (r: String)
    ensures
        r@ == user_message(statement@, error.shown()),
{
    let lower = to_lower(statement);
    if contains_text(lower.as_str(), "pg_catalog") || contains_text(lower.as_str(), "from pg_") {
        NO_CATALOG.to_owned()
    } else {
        error.text()
    }
}

/// After the first error nothing more of a query string is run: whatever the
/// statements behind it are, the script stands at its end, and the error is the
/// last of its answers.
pub proof fn nothing_runs_after_an_error(
    list: Seq<Seq<char>>,
    next: int,
    answers: Seq<AnswerView>,
    version: Seq<char>,
    message: Seq<char>,
)
    requires
        0 <= next < list.len(),
    ensures
        ({
            let (at, held) = fed(
                list.len() as int,
                next,
                answers,
                RanView::Failed(message),
            );
            advanced(list, at, held, version) == (
                list.len() as int,
                answers.push(AnswerView::Error(message)),
            )
        }),
{
}

/// Statements are answered in their order, each once: whoever does not reach the
/// engine is answered by what is canned for it, and the script stops at the first
/// statement that does, or at the end.
pub proof fn statements_are_answered_in_their_order(
    list: Seq<Seq<char>>,
    next: int,
    answers: Seq<AnswerView>,
    version: Seq<char>,
    k: int,
)
    requires
        0 <= next <= list.len(),
    ensures
        ({
            let (at, held) = advanced(list, next, answers, version);
            &&& next <= at <= list.len()
            &&& held.len() - answers.len() == at - next
            &&& held.take(answers.len() as int) == answers
            &&& at < list.len() ==> route_of(list[at]) is Engine
            &&& next <= k < at ==> !(route_of(list[k]) is Engine)
            &&& next <= k < at ==> Some(held[answers.len() + k - next]) == canned(
                route_of(list[k]),
                version,
            )
        }),
    decreases list.len() - next,
{
    if next < list.len() {
        if let Some(answer) = canned(route_of(list[next]), version) {
            let more = answers.push(answer);
            statements_are_answered_in_their_order(list, next + 1, more, version, k);
            let (at, held) = advanced(list, next + 1, more, version);
            assert(held.take(answers.len() as int) =~= held.take(more.len() as int).take(
                answers.len() as int,
            ));
            assert(more.take(answers.len() as int) =~= answers);
            assert(held.take(more.len() as int)[answers.len() as int] == answer);
        } else {
            assert(answers.take(answers.len() as int) =~= answers);
        }
    } else {
        assert(answers.take(answers.len() as int) =~= answers);
    }
}

/// What is answered without the engine is answered by the tag of its kind, or by one
/// row of what was asked for; all else is not answered here.
pub proof fn what_is_canned_answers_its_route(route: RouteView, version: Seq<char>)
    ensures
        canned(route, version) is None <==> route is Engine,
        route matches RouteView::NoOp(tag) ==> canned(route, version) == Some(AnswerView::Tag(tag)),
        canned(route, version) matches Some(AnswerView::Canned { column, value }) ==> (column
            == "server_version"@ ==> value == version),
        route is CannedServerVersion ==> canned(route, version) == Some(
            AnswerView::Canned { column: "server_version"@, value: version },
        ),
        route is CannedTransactionIsolation ==> (canned(route, version) matches Some(
            AnswerView::Canned { column, .. },
        ) && column == "transaction_isolation"@),
{
    reveal_strlit("server_version");
    reveal_strlit("transaction_isolation");
    assert("server_version"@[0] == 's' && "transaction_isolation"@[0] == 't');
}

/// What the engine made of a statement is its answer, and no other's: one answer is
/// added, behind those before it, and unless it is an error the next statement
/// follows.
pub proof fn the_engine_answers_its_own_statement(
    n: int,
    next: int,
    answers: Seq<AnswerView>,
    ran: RanView,
)
    ensures
        fed(n, next, answers, ran).1.drop_last() == answers,
        ran is Rows <==> fed(n, next, answers, ran).1.last() == AnswerView::Rows(next),
        ran matches RanView::Command(tag) ==> fed(n, next, answers, ran).1.last()
            == AnswerView::Tag(tag),
        ran matches RanView::Failed(message) ==> fed(n, next, answers, ran)
            == (n, answers.push(AnswerView::Error(message))),
        !(ran is Failed) ==> fed(n, next, answers, ran).0 == next + 1,
{
    assert(fed(n, next, answers, ran).1.drop_last() =~= answers);
}

/// A client reads the error itself, whatever it is, unless the statement names the
/// catalog; then it reads one hint, whatever the error is.
pub proof fn an_error_is_passed_on(statement: Seq<char>, error: Seq<char>, other: Seq<char>)
    ensures
        !occurs_in("pg_catalog"@, lowered(statement)) && !occurs_in(
            "from pg_"@,
            lowered(statement),
        ) ==> user_message(statement, error) == error,
        occurs_in("pg_catalog"@, lowered(statement)) || occurs_in("from pg_"@, lowered(statement))
            ==> user_message(statement, error) == NO_CATALOG@ && user_message(statement, error)
            == user_message(statement, other),
{
}

/// A statement behind `SUBMIT` goes to the jobs as it was written, and nothing that
/// does not start so goes there.
pub proof fn what_is_submitted_goes_to_the_jobs(keyword: Seq<char>, sql: Seq<char>)
    requires
        lowered(keyword) == lowered("submit"@),
        sql.len() > 0,
        trimmed(sql) == sql,
    ensures
        dispatched(keyword + seq![' '] + sql) == DispatchView::Submit(sql),
{
    a_submitted_statement_is_untouched(keyword, sql);
}

/// The engine sees what nobody else takes, and each of the others only what is its
/// own.
pub proof fn the_engine_sees_what_nobody_else_takes(statement: Seq<char>)
    ensures
        dispatched(statement) is Engine <==> submitted(statement) is None && cancelled(statement)
            == Ok::<Option<Seq<char>>, Seq<char>>(None) && !walks_dependencies(statement),
        dispatched(statement) matches DispatchView::CancelJob(id) ==> cancelled(statement) == Ok::<
            Option<Seq<char>>,
            Seq<char>,
        >(Some(id)),
        dispatched(statement) matches DispatchView::Refused(message) ==> cancelled(statement)
            == Err::<Option<Seq<char>>, Seq<char>>(message),
        dispatched(statement) is NoDependencies ==> walks_dependencies(statement),
{
}

}
