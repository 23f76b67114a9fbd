//! Splitdumb: a verified ledger and settlement engine for shared group
//! expenses.
//!
//! A group records members and an ordered log of monetary events (expenses
//! and settlement payments).  The engine folds that log into per-member net
//! balances and into suggested transfers under two policies: a stable
//! pairwise policy and a minimal-transaction policy.  All money is held as
//! integer cents; shares of an expense are carried exactly, scaled by a
//! common multiple of the participant counts, so every stated property is
//! exact rather than approximate.

pub mod arith;
pub mod balances;
pub mod errors;
pub mod expenses;
pub mod groups;
pub mod models;
pub mod names;
pub mod pairwise;
pub mod settlements;
pub mod simplify;
pub mod storage;
pub mod users;
