//! Logical optimizer rules.
//!
//! To the optimizer, `MEANS` is simply a very expensive predicate in a
//! framework that has always reordered predicates by cost. These rules turn the
//! marker calls into operator nodes, and keep lossy shortcuts honest under a
//! recall target ([`calibrate`]).

pub mod attach;
pub mod calibrate;
pub mod classify;
pub mod cluster;
pub mod distinct;
pub mod extract;
pub mod markers;
pub mod rank;
pub mod rewrite;
