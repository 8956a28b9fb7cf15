//! A pooled staking ledger: depositors put a single token into a shared pool,
//! an administrator injects yield that is shared out in proportion to each
//! depositor's principal, and depositors withdraw principal together with the
//! matching fraction of their accrued gain.
pub mod contract;
pub mod error;
pub mod ledger;
pub mod msg;
