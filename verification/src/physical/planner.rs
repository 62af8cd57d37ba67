//! How a semantic filter is run: over an index, where one covers the filtered
//! column, or by the model alone.

use vstd::prelude::*;

use crate::index::registry::IndexRegistry;
use crate::logical::expr::{Expr, ExprView, Head, HeadView};
use crate::text::opt_view;

verus! {

/// The column that a text expression reads, seen through casts and aliases.
pub open spec fn column_behind(e: ExprView) -> Option<(Option<Seq<char>>, Seq<char>)>
    decreases e,
{
    match e.head {
        HeadView::Column(table, name) => Some((table, name)),
        HeadView::Cast(_) | HeadView::Alias(_) => if e.args.len() == 1 {
            column_behind(e.args[0])
        } else {
            None
        },
        _ => None,
    }
}

/// The column that a text expression reads, seen through casts and aliases:
/// type coercion wraps string columns in casts, and a cast between string types
/// does not change which document the text is. Anything else is a computed
/// expression, which no index covers.
pub fn column_behind_casts(e: &Expr) -> (r: Option<(Option<String>, String)>)
    ensures
        match r {
            Some((table, name)) => column_behind(e@) == Some((opt_view(table), name@)),
            None => column_behind(e@) is None,
        },
    decreases e,
{
    assert(e@.args.len() == e.args@.len());
    match &e.head {
        Head::Column(table, name) => {
            let table = match table {
                Some(t) => Some(t.clone()),
                None => None,
            };
            Some((table, name.clone()))
        },
        Head::Cast(_) | Head::Alias(_) => if e.args.len() == 1 {
            assert(e@.args[0] == e.args@[0]@);
            assert(decreases_to!(*e => e.args@[0]));
            column_behind_casts(&e.args[0])
        } else {
            None
        },
        _ => None,
    }
}

/// What a column is in the schema of the filter's input: its table, where it has
/// one, and its field name.
#[derive(Debug)]
pub struct Resolved {
    pub table: Option<String>,
    pub field: String,
}

/// How a semantic filter is run.
#[derive(Debug, Clone, Copy, PartialEq, Eq, Structural)]
pub enum FilterStages {
    /// An index scan prunes, and the model reads the surviving rows' top chunks.
    IndexThenVerify { index: usize },
    /// The model reads every row.
    VerifyOnly,
}

/// How a semantic filter is run, by what the schema makes of the column that it
/// reads.
pub open spec fn stages_for(e: ExprView, resolved: Option<Resolved>, indexes: IndexRegistry) -> FilterStages {
    match resolved {
        Some(Resolved { table: Some(table), field }) => match indexes.index_of(table@, field@) {
            Some(index) => if column_behind(e) is Some {
                FilterStages::IndexThenVerify { index }
            } else {
                FilterStages::VerifyOnly
            },
            None => FilterStages::VerifyOnly,
        },
        _ => FilterStages::VerifyOnly,
    }
}

/// Decides how a semantic filter is run. Resolution is deliberately exact:
/// computed expressions, and columns without a table, are verified in full
/// rather than borrow a possibly wrong index.
pub fn resolve_index(e: &Expr, resolved: &Option<Resolved>, indexes: &IndexRegistry) -> (r:
    FilterStages)
    ensures
        r == stages_for(e@, *resolved, *indexes),
{
    if column_behind_casts(e).is_none() {
        return FilterStages::VerifyOnly;
    }
    match resolved {
        Some(column) => match &column.table {
            Some(table) => match indexes.index_for(table.as_str(), column.field.as_str()) {
                Some(index) => FilterStages::IndexThenVerify { index },
                None => FilterStages::VerifyOnly,
            },
            None => FilterStages::VerifyOnly,
        },
        None => FilterStages::VerifyOnly,
    }
}

/// Casts and aliases do not hide a column: round any expression, they leave the
/// column behind it what it was; and a column is its own.
pub proof fn casts_do_not_hide_a_column(
    e: ExprView,
    wrapped: ExprView,
    table: Option<Seq<char>>,
    name: Seq<char>,
)
    ensures
        (wrapped.head is Cast || wrapped.head is Alias) && wrapped.args == seq![e]
            ==> column_behind(wrapped) == column_behind(e),
        e.head == HeadView::Column(table, name) ==> column_behind(e) == Some((table, name)),
        column_behind(e) is Some ==> e.head is Column || e.head is Cast || e.head is Alias,
{
}

/// A filter runs over an index exactly where it reads a column of a table, and the
/// index is that of the table and the column; every other filter is verified in
/// full.
pub proof fn an_index_serves_its_own_column(
    e: ExprView,
    resolved: Option<Resolved>,
    indexes: IndexRegistry,
    index: usize,
)
    ensures
        stages_for(e, resolved, indexes) == (FilterStages::IndexThenVerify { index }) <==> (
        resolved is Some && resolved->0.table is Some && column_behind(e) is Some
            && indexes.index_of(resolved->0.table->0@, resolved->0.field@) == Some(index)),
{
}

}
