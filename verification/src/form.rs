use vstd::prelude::*;

use crate::error::TopologyError;

verus! {

/// Failure to admit or combine binary64 chain values.
#[derive(Clone, Copy, Debug, PartialEq, Eq, Structural)]
pub enum Binary64ElementError {
    CoefficientCount,
    NonFinite,
    SpaceMismatch,
    ScalarConversion,
    Allocation,
    Topology(TopologyError),
}

impl Binary64ElementError {
    pub open spec fn reason_text(self) -> Seq<char> {
        match self {
            Binary64ElementError::CoefficientCount => "coefficient_count"@,
            Binary64ElementError::NonFinite => "non_finite"@,
            Binary64ElementError::SpaceMismatch => "space_mismatch"@,
            Binary64ElementError::ScalarConversion => "scalar_conversion"@,
            Binary64ElementError::Allocation => "allocation"@,
            Binary64ElementError::Topology(error) => error.reason_text(),
        }
    }

    /// Stable machine-readable reason.
    pub fn reason(self) -> (text: &'static str)
        ensures
            text@ == self.reason_text(),
    {
        match self {
            Binary64ElementError::CoefficientCount => "coefficient_count",
            Binary64ElementError::NonFinite => "non_finite",
            Binary64ElementError::SpaceMismatch => "space_mismatch",
            Binary64ElementError::ScalarConversion => "scalar_conversion",
            Binary64ElementError::Allocation => "allocation",
            Binary64ElementError::Topology(error) => error.reason(),
        }
    }
}

/// Failure to admit a numerical problem.
#[derive(Clone, Copy, Debug, PartialEq, Eq, Structural)]
pub enum ProblemError {
    SpaceMismatch,
    IncompatibleRhs,
    TimeStep,
    Topology,
    Metric,
    BoundarySelection,
    Numerical,
    Element(Binary64ElementError),
}

impl ProblemError {
    pub open spec fn reason_text(self) -> Seq<char> {
        match self {
            ProblemError::SpaceMismatch => "space_mismatch"@,
            ProblemError::IncompatibleRhs => "incompatible_rhs"@,
            ProblemError::TimeStep => "time_step"@,
            ProblemError::Topology => "topology"@,
            ProblemError::Metric => "metric"@,
            ProblemError::BoundarySelection => "boundary_selection"@,
            ProblemError::Numerical => "numerical"@,
            ProblemError::Element(error) => error.reason_text(),
        }
    }

    /// Stable machine-readable reason.
    pub fn reason(self) -> (text: &'static str)
        ensures
            text@ == self.reason_text(),
    {
        match self {
            ProblemError::SpaceMismatch => "space_mismatch",
            ProblemError::IncompatibleRhs => "incompatible_rhs",
            ProblemError::TimeStep => "time_step",
            ProblemError::Topology => "topology",
            ProblemError::Metric => "metric",
            ProblemError::BoundarySelection => "boundary_selection",
            ProblemError::Numerical => "numerical",
            ProblemError::Element(error) => error.reason(),
        }
    }
}

/// Closes `Problem` to the problems of this library.
pub trait Sealed {

}

/// A solver-free admitted mathematical problem.
pub trait Problem: Sealed {
    type Solution;
}

} // verus!
