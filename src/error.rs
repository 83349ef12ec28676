use vstd::prelude::*;

verus! {

/// Failure of a clustering or graph-building call on a parameter outside its domain.
#[derive(Clone, Copy, Debug, PartialEq, Eq, Structural)]
pub enum AnalysisError {
    /// A bin size that is not strictly positive, or a negative distance threshold.
    InvalidParameter,
}

} // verus!
