//! Semantic operators for SQL: the verified core.
pub mod cache;
pub mod clock;
pub mod error;
pub mod index;
pub mod json;
pub mod logical;
pub mod model;
pub mod number;
pub mod optimizer;
pub mod physical;
pub mod server;
pub mod sort;
pub mod sql;
pub mod text;
pub mod types;
