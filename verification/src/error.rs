//! Errors of the engine that are raised here.

use vstd::prelude::*;

verus! {

#[derive(Debug, PartialEq, Eq)]
pub enum ErrorCode {
    /// The memory layout of the aggregate states is missing.
    LayoutError(String),
}

} // verus!
