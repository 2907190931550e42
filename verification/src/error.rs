//! The failure modes of a wave function collapse run.

use vstd::prelude::*;

verus! {

/// Why a collapse run could not produce a fully collapsed shape.
#[derive(Debug, Clone, Copy, PartialEq, Eq, Structural)]
pub enum WaveCollapseError {
    /// Propagation produced a node with no candidate values left; the run
    /// cannot complete.
    InvalidSuperposition,
    /// An unknown failure.
    Other,
    /// A shape backend advertises an operation it does not implement.
    NotImplemented,
    /// The shape has zero nodes.
    EmptyInput,
    /// The step iterator terminated without producing a result.
    IterationError,
}

impl WaveCollapseError {
    /// A human-readable description of the error.
    pub fn message(&self) -> (r: &'static str)
        ensures
            r@ == self.message_spec(),
    {
        proof {
            reveal_strlit("failed to collapse wave function");
            reveal_strlit("unknown error");
            reveal_strlit("not implemented");
            reveal_strlit("input is empty");
            reveal_strlit("iteration failed, this should never happen");
        }
        match self {
            WaveCollapseError::InvalidSuperposition => "failed to collapse wave function",
            WaveCollapseError::Other => "unknown error",
            WaveCollapseError::NotImplemented => "not implemented",
            WaveCollapseError::EmptyInput => "input is empty",
            WaveCollapseError::IterationError => "iteration failed, this should never happen",
        }
    }

    /// What `message` returns for each variant.
    pub open spec fn message_spec(self) -> Seq<char> {
        match self {
            WaveCollapseError::InvalidSuperposition => "failed to collapse wave function"@,
            WaveCollapseError::Other => "unknown error"@,
            WaveCollapseError::NotImplemented => "not implemented"@,
            WaveCollapseError::EmptyInput => "input is empty"@,
            WaveCollapseError::IterationError => "iteration failed, this should never happen"@,
        }
    }
}

} // verus!
