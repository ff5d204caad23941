use vstd::prelude::*;

verus! {

/// Typed failures returned by grid construction, configuration validation and
/// search construction.  All are local results handed back to the caller;
/// no operation panics on documented inputs.
#[derive(Clone, Copy, Debug, PartialEq, Eq, Structural)]
pub enum PlanError {
    /// Grid construction was given a cell list whose length is not `width * height`.
    DimensionMismatch,
    /// The configuration has no goal cell set.
    MissingGoal,
    /// The configuration has no start cell set.
    MissingStart,
    /// A cell id does not resolve to coordinates inside the grid.
    OutOfBounds,
    /// A search was constructed from a configuration that fails validation.
    InvalidConfig,
}

} // verus!
