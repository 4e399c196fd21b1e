//! Settling net debts among a group with few transfers.
//!
//! The balances of the participants are split into as many blocks that sum
//! to zero as possible (`mzsp`, over the subsets of `bitset`), and each block
//! is settled by a plan found by search (`planner`); together these are the
//! exact settlement (`exact`). For many balances the settlement is read off
//! a minimum-cost flow instead (`flow`). `strategy` chooses between the two.
//!
//! What the executable functions promise is stated over the functions of
//! `words`, `partition` and `search`; `least` and `fewest` prove that no plan
//! settles balances with fewer transfers than the exact ones.

pub mod bitset;
pub mod exact;
pub mod fewest;
pub mod flow;
pub mod least;
pub mod mzsp;
pub mod partition;
pub mod planner;
pub mod search;
pub mod stack;
pub mod strategy;
pub mod transfer;
pub mod words;
