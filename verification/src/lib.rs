//! Verified query-engine kernels: the probe side of a hash join, single-state aggregation, the
//! `COPY` interpreter and the `KILL` statement parser.

pub mod aggregator;
pub mod arena;
pub mod bitmap;
pub mod error;
pub mod hash_join;
pub mod interpreter_copy;
pub mod parser_kill;
pub mod split_aggregation;
