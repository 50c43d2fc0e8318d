use vstd::prelude::*;

verus! {

/// Every way in which an operation of the library can be refused.
#[derive(Debug, Clone, Copy, PartialEq, Eq, Structural)]
pub enum DripError {
    /// The account has no ledger entry yet.
    NotRegistered,
    /// The account has a ledger entry already.
    AlreadyRegistered,
    /// A slot balance would exceed `u128::MAX`.
    BalanceOverflow,
    /// The total supply would exceed `u128::MAX`.
    SupplyOverflow,
    /// A slot holds less than the amount asked for.
    InsufficientBalance,
    /// The attached payment does not meet the storage or authorization requirement.
    InsufficientDeposit,
    /// The execution budget cannot cover the planned remote calls and their reconciliation.
    InsufficientBudget,
    /// No source survived the authorization filter.
    NothingToCollect,
    /// The caller is not the owner.
    Unauthorized,
}

} // verus!
