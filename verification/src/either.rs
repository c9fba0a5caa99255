use vstd::prelude::*;

verus! {

/// A general sum of two alternatives.
///
/// The simulation uses it as the outcome of resuming a process:
/// `Left(action)` when the process suspended and yielded a command,
/// `Right(())` when it ran to completion.
#[derive(Clone, Copy, PartialEq, Eq, PartialOrd, Ord, Hash, Debug)]
pub enum Either<L, R> {
    /// A value of type `L`.
    Left(L),
    /// A value of type `R`.
    Right(R),
}

} // verus!
