//! Which semantic indexes a session has, and where they are kept.

use vstd::prelude::*;

use crate::error::SemcastError;
use crate::index::store::index_error;
use crate::text::{a_framed_text_stands_in_the_whole, concat3, occurs_in, same};

verus! {

/// An index that is registered for a column of a table, by its handle.
#[derive(Debug)]
pub struct Registered {
    pub table: String,
    pub column: String,
    pub handle: usize,
}

/// Registered indexes, keyed by table and column. Resolution is exact: a
/// same-named column on a different table never borrows an index.
#[derive(Debug)]
pub struct IndexRegistry {
    entries: Vec<Registered>,
}

/// The index that some entries hold for a column, the last one registered.
pub open spec fn entry_for(entries: Seq<Registered>, table: Seq<char>, column: Seq<char>) -> Option<
    usize,
>
    decreases entries.len(),
{
    if entries.len() == 0 {
        None
    } else if entries.last().table@ == table && entries.last().column@ == column {
        Some(entries.last().handle)
    } else {
        entry_for(entries.drop_last(), table, column)
    }
}

impl IndexRegistry {
    /// The index registered for a column.
    pub closed spec fn index_of(&self, table: Seq<char>, column: Seq<char>) -> Option<usize> {
        entry_for(self.entries@, table, column)
    }

    pub fn new() -> (r: IndexRegistry)
        ensures
            forall|t: Seq<char>, c: Seq<char>| (#[trigger] r.index_of(t, c)) is None,
    {
        IndexRegistry { entries: Vec::new() }
    }

    /// Registers an index for a column, in place of any that it had.
    pub fn register_index(&mut self, table: &str, column: &str, handle: usize)
        ensures
            forall|t: Seq<char>, c: Seq<char>| #[trigger]
                final(self).index_of(t, c) == if t == table@ && c == column@ {
                    Some(handle)
                } else {
                    old(self).index_of(t, c)
                },
    {
        let ghost before = self.entries@;
        self.entries.push(
            Registered { table: table.to_owned(), column: column.to_owned(), handle },
        );
        assert(self.entries@.drop_last() =~= before);
    }

    /// The index registered for a column.
    pub fn index_for(&self, table: &str, column: &str) -> (r: Option<usize>)
        ensures
            r == self.index_of(table@, column@),
    {
        let ghost all = self.entries@;
        let mut i: usize = self.entries.len();
        assert(all.take(i as int) =~= all);
        while i > 0
            invariant
                i <= self.entries.len(),
                all == self.entries@,
                entry_for(all, table@, column@) == entry_for(all.take(i as int), table@, column@),
            decreases i,
        {
            i -= 1;
            assert(all.take(i + 1).drop_last() =~= all.take(i as int));
            assert(all.take(i + 1).last() == all[i as int]);
            let entry = &self.entries[i];
            if same(entry.table.as_str(), table) && same(entry.column.as_str(), column) {
                return Some(entry.handle);
            }
        }
        None
    }

    /// The index of a column that is to be refreshed: one that was never created
    /// is an error, not an empty index.
    pub fn index_to_refresh(&self, table: &str, column: &str) -> (r: Result<usize, SemcastError>)
        ensures
            match self.index_of(table@, column@) {
                Some(handle) => r == Ok::<usize, SemcastError>(handle),
                None => r is Err && index_error(r->Err_0, no_index(table@, column@)),
            },
    {
        match self.index_for(table, column) {
            Some(handle) => Ok(handle),
            None => {
                let mut message: String = concat3("no semantic index on ", table, "(");
                message.append(column);
                message.append(")");
                Err(SemcastError::Index(message))
            },
        }
    }
}

/// The message for a column without an index.
pub open spec fn no_index(table: Seq<char>, column: Seq<char>) -> Seq<char> {
    "no semantic index on "@ + table + "("@ + column + ")"@
}

/// The name of the dataset of a column, under the root of the indexes.
pub fn dataset_name(table: &str, column: &str) -> (r: String)
    ensures
        r@ == table@ + "."@ + column@ + ".lance"@,
{
    let mut name: String = concat3(table, ".", column);
    name.append(".lance");
    name
}

/// A column keeps the index that was registered for it, whatever is registered
/// for others.
pub proof fn an_index_is_never_borrowed(
    entries: Seq<Registered>,
    other: Registered,
    table: Seq<char>,
    column: Seq<char>,
)
    requires
        other.table@ != table || other.column@ != column,
    ensures
        entry_for(entries.push(other), table, column) == entry_for(entries, table, column),
{
    assert(entries.push(other).drop_last() =~= entries);
}

/// The index that was registered last for a column is the one it has.
pub proof fn the_last_registered_index_counts(entries: Seq<Registered>, one: Registered)
    ensures
        entry_for(entries.push(one), one.table@, one.column@) == Some(one.handle),
        entry_for(Seq::empty(), one.table@, one.column@) is None,
{
    assert(entries.push(one).last() == one);
}

/// A missing index is reported by its table and its column.
pub proof fn a_missing_index_is_named(table: Seq<char>, column: Seq<char>)
    ensures
        occurs_in(table, no_index(table, column)),
        occurs_in(column, no_index(table, column)),
{
    let head = "no semantic index on "@;
    a_framed_text_stands_in_the_whole(head, table, "("@ + column + ")"@);
    assert(head + table + ("("@ + column + ")"@) =~= no_index(table, column));
    a_framed_text_stands_in_the_whole(head + table + "("@, column, ")"@);
}

}
