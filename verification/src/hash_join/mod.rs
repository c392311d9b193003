//! The probe side of a hash join.

pub mod fill;
pub mod guarantees;
pub mod laws;
pub mod probe;
pub mod relations;
pub mod result_blocks;
pub mod theorems;
