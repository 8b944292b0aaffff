//! Stake-ranked council membership with resumable, budget-bounded maintenance
//! operations and a change ledger reconciled against a DAO contract.

pub mod account_ids;
pub mod batch;
pub mod change_histories;
pub mod council;
pub mod json;
pub mod ranked_lookup_array;
pub mod types;
pub mod validator_stakes;
