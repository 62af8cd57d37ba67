//! Statement execution, decoupled from the wire protocol: where a statement's
//! rows go, and what is said of a statement that has none.

use vstd::prelude::*;

use crate::text::{concat3, joined, same, split_words, to_upper, uppered, views, words};

verus! {

/// Where a statement's rows should go.
#[derive(Debug)]
pub enum ResultTarget {
    /// Buffered in memory: the interactive path, which has to hand the rows
    /// straight back to the connection.
    Memory,
    /// Streamed to a file at a path. Batch jobs use this, so that a result never
    /// has to fit in memory and outlives the connection that asked for it.
    Parquet(String),
}

/// The open destination of one statement's rows.
#[derive(Debug)]
pub enum Sink {
    /// No result shape: drive the stream, keep nothing.
    Discard,
    Memory,
    Parquet { path: String, rows: u64 },
}

/// What a statement came to.
#[derive(Debug)]
pub enum StatementOutcome {
    /// Its rows are in memory.
    Rows,
    /// It has no rows, and is answered by its command tag.
    Command { tag: String },
    /// Its rows are in a file.
    Written { path: String, rows: u64 },
}

/// Whether a word opens the commands that are named by two words.
pub open spec fn defines(w: Seq<char>) -> bool {
    w == "CREATE"@ || w == "DROP"@ || w == "ALTER"@
}

/// The command tag of a statement, by its words in upper case.
pub open spec fn tag_of(sql: Seq<char>) -> Seq<char> {
    let w = words(sql);
    let first = uppered(w[0]);
    let second = uppered(w[1]);
    let third = uppered(w[2]);
    if w.len() == 0 {
        "OK"@
    } else if w.len() == 1 {
        first
    } else if defines(first) && second == "SEMANTIC"@ {
        if w.len() == 2 {
            first + " SEMANTIC"@
        } else {
            first + " SEMANTIC "@ + third
        }
    } else if first == "CREATE"@ && second == "EXTERNAL"@ {
        "CREATE TABLE"@
    } else if defines(first) {
        first + " "@ + second
    } else {
        first
    }
}

/// Command tag for statements without a result shape, from the leading
/// keywords: `CREATE TABLE`, `CREATE SEMANTIC INDEX`, `DROP TABLE`, ...
pub fn command_tag(sql: &str) -> (r: String)
    ensures
        r@ == tag_of(sql@),
{
    let list = split_words(sql);
    let n: usize = list.len();
    assert(views(list@).len() == n);
    if n == 0 {
        return "OK".to_owned();
    }
    assert(views(list@)[0] == list@[0]@);
    let first = to_upper(list[0].as_str());
    if n == 1 {
        return first;
    }
    assert(views(list@)[1] == list@[1]@);
    let second = to_upper(list[1].as_str());
    let f = first.as_str();
    let is_definition: bool = same(f, "CREATE") || same(f, "DROP") || same(f, "ALTER");
    if is_definition && same(second.as_str(), "SEMANTIC") {
        if n == 2 {
            return first.concat(" SEMANTIC");
        }
        assert(views(list@)[2] == list@[2]@);
        let third = to_upper(list[2].as_str());
        return concat3(first.as_str(), " SEMANTIC ", third.as_str());
    }
    // Clients know `CREATE TABLE`; `CREATE EXTERNAL` would read as noise.
    if same(f, "CREATE") && same(second.as_str(), "EXTERNAL") {
        return "CREATE TABLE".to_owned();
    }
    if is_definition {
        return concat3(first.as_str(), " ", second.as_str());
    }
    first
}

impl Sink {
    /// The destination of a statement whose result has a number of columns. A
    /// statement without any is a command: it has to be driven to completion,
    /// but must not produce a result file.
    pub fn new(columns: usize, target: ResultTarget) -> (r: Sink)
        ensures
            r == if columns == 0 {
                Sink::Discard
            } else {
                match target {
                    ResultTarget::Memory => Sink::Memory,
                    ResultTarget::Parquet(path) => Sink::Parquet { path, rows: 0 },
                }
            },
    {
        if columns == 0 {
            return Sink::Discard;
        }
        match target {
            ResultTarget::Memory => Sink::Memory,
            ResultTarget::Parquet(path) => Sink::Parquet { path, rows: 0 },
        }
    }

    /// Takes in a batch of rows.
    pub fn push(self, count: u64) -> (r: Sink)
        requires
            self matches Sink::Parquet { rows, .. } ==> rows + count <= u64::MAX,
        ensures
            r == match self {
                Sink::Parquet { path, rows } => Sink::Parquet { path, rows: (rows + count) as u64 },
                _ => self,
            },
    {
        match self {
            Sink::Parquet { path, rows } => Sink::Parquet { path, rows: rows + count },
            other => other,
        }
    }

    /// What the statement came to, once its rows are all taken in.
    pub fn finish(self, sql: &str) -> (r: StatementOutcome)
        ensures
            match self {
                Sink::Discard => r matches StatementOutcome::Command { tag } && tag@ == tag_of(sql@),
                Sink::Memory => r is Rows,
                Sink::Parquet { path, rows } => r == (StatementOutcome::Written { path, rows }),
            },
    {
        match self {
            Sink::Discard => StatementOutcome::Command { tag: command_tag(sql) },
            Sink::Memory => StatementOutcome::Rows,
            Sink::Parquet { path, rows } => StatementOutcome::Written { path, rows },
        }
    }
}

/// The sum of some numbers of rows.
pub open spec fn sum(counts: Seq<u64>) -> nat
    decreases counts.len(),
{
    if counts.len() == 0 {
        0
    } else {
        sum(counts.drop_last()) + counts.last() as nat
    }
}

/// What a destination is after some batches.
pub open spec fn after(sink: Sink, counts: Seq<u64>) -> Sink
    decreases counts.len(),
{
    if counts.len() == 0 {
        sink
    } else {
        match after(sink, counts.drop_last()) {
            Sink::Parquet { path, rows } => Sink::Parquet {
                path,
                rows: (rows + counts.last()) as u64,
            },
            other => other,
        }
    }
}

/// A file reports as many rows as its batches held together.
pub proof fn a_file_reports_all_its_rows(path: String, counts: Seq<u64>)
    requires
        sum(counts) <= u64::MAX,
    ensures
        after(Sink::Parquet { path, rows: 0 }, counts) == (Sink::Parquet {
            path,
            rows: sum(counts) as u64,
        }),
    decreases counts.len(),
{
    if counts.len() > 0 {
        a_file_reports_all_its_rows(path, counts.drop_last());
    }
}

/// The first words of a text in upper case, with a space between each two.
pub open spec fn leading(sql: Seq<char>, n: int) -> Seq<char> {
    joined(words(sql).take(n).map_values(|w: Seq<char>| uppered(w)), " "@)
}

/// A command is tagged by its own leading words in upper case: by one, by two where
/// it creates, drops or alters something, and by three where that is semantic. The
/// one exception is an external table, which is tagged as any other.
pub proof fn a_tag_is_of_the_leading_words(sql: Seq<char>)
    requires
        words(sql).len() > 0,
    ensures
        ({
            let w = words(sql);
            let first = uppered(w[0]);
            let second = uppered(w[1]);
            let defining = w.len() > 1 && (first == "CREATE"@ || first == "DROP"@ || first
                == "ALTER"@);
            &&& !defining ==> tag_of(sql) == leading(sql, 1)
            &&& defining && second != "SEMANTIC"@ && !(first == "CREATE"@ && second
                == "EXTERNAL"@) ==> tag_of(sql) == leading(sql, 2)
            &&& defining && second == "SEMANTIC"@ && w.len() > 2 ==> tag_of(sql) == leading(sql, 3)
            &&& defining && first == "CREATE"@ && second == "EXTERNAL"@ ==> tag_of(sql)
                == "CREATE TABLE"@
        }),
{
    let w = words(sql);
    let up = |x: Seq<char>| uppered(x);
    let one = w.take(1).map_values(up);
    assert(joined(one, " "@) == uppered(w[0]));
    if w.len() > 1 {
        let two = w.take(2).map_values(up);
        assert(two.drop_last() =~= one);
        assert(joined(two, " "@) == uppered(w[0]) + " "@ + uppered(w[1]));
        reveal_strlit(" SEMANTIC");
        reveal_strlit(" SEMANTIC ");
        reveal_strlit("SEMANTIC");
        reveal_strlit("EXTERNAL");
        reveal_strlit(" ");
        assert("SEMANTIC"@[0] == 'S' && "EXTERNAL"@[0] == 'E');
        if w.len() > 2 {
            let three = w.take(3).map_values(up);
            assert(three.drop_last() =~= two);
            assert(" "@ + "SEMANTIC"@ + " "@ =~= " SEMANTIC "@);
            if uppered(w[1]) == "SEMANTIC"@ {
                assert(uppered(w[0]) + " "@ + uppered(w[1]) + " "@ =~= uppered(w[0])
                    + " SEMANTIC "@);
            }
        }
    }
}

}
