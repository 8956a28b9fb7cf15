//! The values that calls into the pool carry in and hand back.
use vstd::prelude::*;

verus! {

/// The denomination of the one token that the pool accepts.
pub const POOL_DENOM: &'static str = "ubay";

/// Setup of a pool: the administrator, or none to make the initializer one.
pub struct InstantiateMsg {
    pub admin: Option<String>,
}

/// An amount of one denomination attached to a call.
#[derive(Clone, Debug, PartialEq)]
pub struct Coin {
    pub denom: String,
    pub amount: u128,
}

/// Who makes a call, and what funds come with it.
#[derive(Clone, Debug, PartialEq)]
pub struct MessageInfo {
    pub sender: String,
    pub funds: Vec<Coin>,
}

/// The state-changing commands.
#[derive(Clone, Debug, PartialEq)]
pub enum ExecuteMsg {
    Deposit,
    UpdatePoolTotalAmount,
    Withdraw { amount: u128 },
}

/// The read-only queries.
#[derive(Clone, Debug, PartialEq)]
pub enum QueryMsg {
    GetUserAmount { user: String },
    GetUserGain { user: String },
    GetPoolTotalAmount,
}

/// An instruction to send `amount` of the pool token to `to_address`.
#[derive(Clone, Debug, PartialEq)]
pub struct Payout {
    pub to_address: String,
    pub amount: u128,
}

/// What a successful command hands back: a transfer to perform, if any.
#[derive(Clone, Debug, PartialEq)]
pub struct Response {
    pub payout: Option<Payout>,
}

} // verus!
