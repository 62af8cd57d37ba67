//! The semantic operators as logical plan nodes.

pub mod expr;
pub mod node;
pub mod plan;
pub mod sem_classify;
pub mod sem_cluster;
pub mod sem_distinct;
pub mod sem_extract;
pub mod sem_filter;
pub mod sem_rank;
