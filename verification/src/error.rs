//! The error that both queries report for a request they cannot serve.

use vstd::prelude::*;

verus! {

/// A request parameter that does not fit the data it was given with.
#[derive(Debug, Clone, Copy, PartialEq, Eq)]
pub enum InvalidArgument {
    /// More points were asked for than there are candidates.
    NotEnoughPoints { k: usize, available: usize },
    /// The window is empty, or longer than the series.
    SpanOutOfRange { span: usize, length: usize },
}

} // verus!
