//! Failure classification shared by the algorithms.

use vstd::prelude::*;

verus! {

/// Reasons for which a computation fails as a whole.
#[derive(Clone, Copy, Debug, PartialEq, Eq, Structural)]
pub enum Failure {
    /// The hitting cost is undefined for a time step and candidate
    /// configuration on which the search relies.
    CostFunctionNotTotal,
    /// The search between two layer-boundary vertices found no path.
    SubpathShouldBePresent,
    /// A predecessor or the terminal vertex has no cached path.
    PathsShouldBeCached,
    /// The online algorithm does not support a prediction window.
    UnsupportedPredictionWindow(i32),
    /// The online algorithm does not support this number of dimensions.
    UnsupportedProblemDimension(i32),
}

impl Failure {
    /// A stable numeric code of the failure kind.
    pub fn code(&self) -> (r: u8)
        ensures
            r == match *self {
                Failure::CostFunctionNotTotal => 1u8,
                Failure::SubpathShouldBePresent => 2u8,
                Failure::PathsShouldBeCached => 3u8,
                Failure::UnsupportedPredictionWindow(_) => 4u8,
                Failure::UnsupportedProblemDimension(_) => 5u8,
            },
    {
        match self {
            Failure::CostFunctionNotTotal => 1,
            Failure::SubpathShouldBePresent => 2,
            Failure::PathsShouldBeCached => 3,
            Failure::UnsupportedPredictionWindow(_) => 4,
            Failure::UnsupportedProblemDimension(_) => 5,
        }
    }
}

} // verus!
