//! A `pg_catalog` shim wide enough for dbt.
//!
//! dbt introspects through `pg_namespace`, `pg_tables`, `pg_views`,
//! `pg_matviews` and `pg_proc`, unqualified, so they resolve in the default
//! schema. Each is a view over `information_schema`, which the engine keeps
//! live.
//!
//! The shim's own views are filtered out of `pg_views`: they live in the default
//! schema, which is usually a dbt target schema, and dbt would otherwise cache
//! them as models that it owns.

use vstd::prelude::*;

use crate::text::{
    a_framed_text_stands_in_the_whole, a_part_of_a_part_is_a_part, concat3, contains_text, join,
    joined, joining_keeps_every_part, lowered, occurs_in, to_lower, views,
};

verus! {

pub const NAMESPACE_VIEW: &'static str =
    "CREATE OR REPLACE VIEW pg_namespace AS SELECT schema_name AS nspname, 0 AS oid FROM information_schema.schemata";

pub const TABLES_VIEW: &'static str =
    "CREATE OR REPLACE VIEW pg_tables AS SELECT table_schema AS schemaname, table_name AS tablename, '' AS tableowner FROM information_schema.tables WHERE table_type = 'BASE TABLE' AND table_schema <> 'information_schema'";

pub const VIEWS_VIEW: &'static str =
    "CREATE OR REPLACE VIEW pg_views AS SELECT table_schema AS schemaname, table_name AS viewname, '' AS viewowner, definition FROM information_schema.views WHERE definition IS NOT NULL AND table_schema <> 'information_schema' AND table_name NOT IN (";

pub const MATVIEWS_VIEW: &'static str =
    "CREATE OR REPLACE VIEW pg_matviews AS SELECT table_schema AS schemaname, table_name AS matviewname, '' AS matviewowner FROM information_schema.tables WHERE false";

pub const PROC_VIEW: &'static str =
    "CREATE OR REPLACE VIEW pg_proc AS SELECT table_name AS proname, 0 AS pronamespace FROM information_schema.tables WHERE false";

/// The views that the shim installs, and the names that it hides from
/// `pg_views`.
pub open spec fn shim_list() -> Seq<Seq<char>> {
    seq!["pg_namespace"@, "pg_tables"@, "pg_views"@, "pg_matviews"@, "pg_proc"@]
}

/// The columns of the answer to the dependency walk.
pub open spec fn dependency_columns() -> Seq<Seq<char>> {
    seq!["dependent_schema"@, "dependent_name"@, "referenced_schema"@, "referenced_name"@]
}

/// A name in single quotes.
pub open spec fn quoted(name: Seq<char>) -> Seq<char> {
    "'"@ + name + "'"@
}

/// The names of the shim's views, each in quotes, as a list of SQL.
pub open spec fn hidden_names() -> Seq<char> {
    joined(shim_list().map_values(|n: Seq<char>| quoted(n)), ", "@)
}

/// The statements that install the shim.
pub open spec fn shim_statements() -> Seq<Seq<char>> {
    seq![NAMESPACE_VIEW@, TABLES_VIEW@, VIEWS_VIEW@ + hidden_names() + ")"@, MATVIEWS_VIEW@, PROC_VIEW@]
}

/// The views that the shim installs.
pub fn shim_views() -> (r: Vec<String>)
    ensures
        views(r@) == shim_list(),
{
    let mut out: Vec<String> = Vec::new();
    out.push("pg_namespace".to_owned());
    out.push("pg_tables".to_owned());
    out.push("pg_views".to_owned());
    out.push("pg_matviews".to_owned());
    out.push("pg_proc".to_owned());
    assert(views(out@) =~= shim_list());
    out
}

/// The columns of the answer to the dependency walk, which has no rows.
pub fn relation_dependency_columns() -> (r: Vec<String>)
    ensures
        views(r@) == dependency_columns(),
{
    let mut out: Vec<String> = Vec::new();
    out.push("dependent_schema".to_owned());
    out.push("dependent_name".to_owned());
    out.push("referenced_schema".to_owned());
    out.push("referenced_name".to_owned());
    assert(views(out@) =~= dependency_columns());
    out
}

/// The statements that install the shim. Running them again changes nothing:
/// every view is replaced.
pub fn install_statements() -> (r: Vec<String>)
    ensures
        views(r@) == shim_statements(),
{
    let names = shim_views();
    let ghost want = shim_list().map_values(|n: Seq<char>| quoted(n));
    let mut hidden: Vec<String> = Vec::new();
    let mut i: usize = 0;
    while i < names.len()
        invariant
            i <= names.len(),
            views(names@) == shim_list(),
            want == shim_list().map_values(|n: Seq<char>| quoted(n)),
            views(hidden@) == want.take(i as int),
        decreases names.len() - i,
    {
        let ghost before = views(hidden@);
        let name = concat3("'", names[i].as_str(), "'");
        hidden.push(name);
        assert(views(names@)[i as int] == names@[i as int]@);
        assert(views(hidden@) =~= before.push(name@));
        assert(want.take(i + 1) =~= before.push(name@));
        i += 1;
    }
    assert(views(names@).len() == names@.len());
    assert(want.take(i as int) =~= want);
    let list = join(&hidden, ", ");
    let mut out: Vec<String> = Vec::new();
    out.push(NAMESPACE_VIEW.to_owned());
    out.push(TABLES_VIEW.to_owned());
    out.push(concat3(VIEWS_VIEW, list.as_str(), ")"));
    out.push(MATVIEWS_VIEW.to_owned());
    out.push(PROC_VIEW.to_owned());
    assert(views(out@) =~= shim_statements());
    out
}

/// Whether a statement names both tables of the walk over dependencies.
pub open spec fn walks_dependencies(statement: Seq<char>) -> bool {
    occurs_in("pg_depend"@, lowered(statement)) && occurs_in("pg_rewrite"@, lowered(statement))
}

/// Does this statement look like dbt's walk over `pg_depend` and `pg_rewrite`,
/// which links a cached view to the relations that it reads?
///
/// It casts to a type that the engine does not have, so the shim answers it
/// directly with no rows.
pub fn is_relation_dependency_query(statement: &str) -> (r: bool)
    ensures
        r == walks_dependencies(statement@),
{
    let lower = to_lower(statement);
    contains_text(lower.as_str(), "pg_depend") && contains_text(lower.as_str(), "pg_rewrite")
}

/// Every view of the shim is hidden: its name stands in quotes in the statement that
/// lists the views.
pub proof fn every_view_of_the_shim_is_hidden(k: int)
    requires
        0 <= k < shim_list().len(),
    ensures
        occurs_in("'"@ + shim_list()[k] + "'"@, shim_statements()[2]),
        shim_statements().len() == shim_list().len(),
{
    let names = shim_list().map_values(|n: Seq<char>| quoted(n));
    joining_keeps_every_part(names, ", "@, k);
    assert(names[k] == quoted(shim_list()[k]));
    a_framed_text_stands_in_the_whole(VIEWS_VIEW@, hidden_names(), ")"@);
    a_part_of_a_part_is_a_part(quoted(shim_list()[k]), hidden_names(), shim_statements()[2]);
}

}
