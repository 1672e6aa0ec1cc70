use vstd::prelude::*;
use crate::counts::CountOverflow;

verus! {

/// Why an operation on a relational graph could not be carried out.
#[derive(Debug, Clone, Copy, PartialEq, Eq, Structural)]
pub enum Error {
    /// An input, relation or output was used with a context other than its own.
    ContextMismatch,
    /// A count left the range of `isize`.
    CountOverflow,
    /// An earlier operation failed and left the context unusable.
    Failed,
    /// A commit went on for longer than a `u64` can count without reaching a fixpoint.
    NoFixpoint,
}

/// The error for a count overflow.
pub fn overflow_error(e: CountOverflow) -> (r: Error)
    ensures
        r is CountOverflow,
{
    Error::CountOverflow
}

} // verus!
