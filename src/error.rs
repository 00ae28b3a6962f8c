use vstd::prelude::*;

verus! {

/// What an operation of the engine can fail with.
#[derive(PartialEq, Eq, Structural, Debug, Clone, Copy)]
pub enum EngineError {
    /// More was taken from a size or a balance than it holds.
    Underflow,
    /// A sum would not fit in the integer type that holds it.
    Overflow,
    /// An order id or a price level that does not exist.
    NotFound,
    /// A transfer whose sender and receiver are the same account.
    SelfTransfer,
    /// The sender of a transfer holds less than the amount.
    InsufficientBalance,
    /// A completion notification from a caller other than the engine itself.
    Unauthorized,
}

} // verus!
