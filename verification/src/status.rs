//! The states of a resolve, the ways of choosing a variant, and the error
//! a failed resolve reports.
use vstd::prelude::*;

verus! {

/// The state of a resolve phase, or of a whole resolve.
#[derive(Debug, Clone, Copy, PartialEq, Eq, Structural)]
pub enum SolverStatus {
    /// Not solved yet.
    Pending,
    /// Fully resolved.
    Solved,
    /// Reduced as far as it goes without choosing a sub-range: it must be
    /// split.
    Exhausted,
    /// Failed.
    Failed,
    /// Resolved, with a dependency cycle.
    Cyclic,
    /// Still in progress.
    Unsolved,
}

/// How the variant of a package is chosen.
#[derive(Debug, Clone, Copy, PartialEq, Eq, Structural)]
pub enum VariantSelectMode {
    /// The variant using the highest versions of the packages already
    /// requested.
    VersionPriority,
    /// The variant matching the most of the request, ties broken as in
    /// `VersionPriority`.
    IntersectionPriority,
}

impl Default for VariantSelectMode {
    fn default() -> (r: Self)
        ensures
            r == VariantSelectMode::VersionPriority,
    {
        VariantSelectMode::VersionPriority
    }
}

/// The error of a failed resolve, with its message.
#[derive(Debug)]
pub struct RerSolverError(pub String);

impl RerSolverError {
    /// The message.
    pub fn message(&self) -> (r: &str)
        ensures
            r@ == self.0@,
    {
        self.0.as_str()
    }
}

} // verus!
