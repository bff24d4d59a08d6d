//! The values that pass between a computation, its dispatcher and the caller.

use vstd::prelude::*;

verus! {

/// What one poll of a computation reports.
#[derive(Debug, PartialEq, Eq)]
pub enum Step<T, E> {
    /// No result yet: poll again later.
    Pending,
    /// The computation has finished with a value.
    Ready(T),
    /// The computation has finished without a value.
    Failed(E),
}

/// What a computation under a dispatcher reports in place of a plain failure.
#[derive(Debug, PartialEq, Eq)]
pub enum Signal<N, E> {
    /// Not a failure: the dispatcher is to drop the computation that reported
    /// this and to run `N` in its place.
    Continuation(N),
    /// A failure of the computation, which the dispatcher hands to its caller.
    GenuineFailure(E),
}

} // verus!
