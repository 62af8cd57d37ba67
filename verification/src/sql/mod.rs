//! The parts of the language that are not standard SQL.

pub mod clause;
pub mod ddl;
