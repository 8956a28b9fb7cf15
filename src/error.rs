//! The ways a command can fail.
use vstd::prelude::*;

verus! {

#[derive(Clone, Debug, PartialEq)]
pub enum ContractError {
    /// No positive amount of the pool token came with a call that needs one.
    InvalidDeposit,
    /// The caller may not perform the command.
    Unauthorized,
    /// The named argument is out of its range.
    InvalidArgument { name: String },
    /// A balance or total would leave the range of `u128`.
    ArithmeticOverflow,
}

/// `e` reports that the argument `amount` is out of range.
pub open spec fn is_invalid_amount(e: ContractError) -> bool {
    match e {
        ContractError::InvalidArgument { name } => name@ == "amount"@,
        _ => false,
    }
}

} // verus!
