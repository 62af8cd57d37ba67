//! The served database: how a client's text becomes statements, where each
//! statement goes, and what comes back besides rows.

pub mod encode;
pub mod engine;
pub mod handler;
pub mod jobs;
pub mod pg_catalog;
pub mod progress;
pub mod router;
pub mod splitting;
