//! Draining a step iterator into its terminal result.

use vstd::prelude::*;

use crate::error::WaveCollapseError;

verus! {

/// A resumable computation that yields intermediate states and, once
/// exhausted, produces a terminal result.
pub trait GenIterReturnResult<T>: Sized {
    /// What the computation requires before it can be drained.
    spec fn req(&self) -> bool;

    /// Advances the iteration to its end and returns the terminal result.
    fn calc_result(self) -> (r: Result<T, WaveCollapseError>)
        requires
            self.req(),
    ;
}

} // verus!
