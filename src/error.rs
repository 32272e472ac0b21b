use vstd::prelude::*;

verus! {

/// The reasons for which an operation of the library is refused. Every
/// error leaves all state exactly as it was before the call.
#[derive(Clone, Copy, Debug, PartialEq, Eq, Structural)]
pub enum Error {
    /// An empty label or description, equal outcome labels, or a
    /// non-positive amount.
    InvalidArgument,
    /// A market with the derived identifier is already registered.
    AlreadyExists,
    /// No market is registered under the identifier.
    NoSuchMarket,
    /// The label names neither outcome of the market.
    InvalidOutcome,
    /// The market has already been asserted.
    AlreadyResolved,
    /// The market has not been asserted yet.
    MarketNotResolved,
    /// The caller is not the account whose funds would move.
    Unauthorized,
    /// The account holds less than the amount to move.
    InsufficientBalance,
    /// The amount would take a ledger's total supply past `i128::MAX`.
    Overflow,
}

} // verus!
