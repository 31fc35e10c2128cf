//! Consistency engine of an Interledger connector's store: account
//! registration with uniqueness enforcement, an atomic balance ledger with
//! overdraft protection, an exchange-rate cache and a routing-table cache
//! merged from dynamic and static routes with static precedence.
pub mod account;
pub mod errors;
pub mod keys;
pub mod laws;
pub mod ledger;
pub mod rate_table;
pub mod route_table;
pub mod store;
pub mod sync;
