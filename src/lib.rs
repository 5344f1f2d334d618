//! A queryable, reorg-aware index of watched-script history over a chain of
//! block headers: position resolution, ledger replay and cache bookkeeping.

pub mod hash;
pub mod cache;
pub mod chain;
pub mod history;
pub mod ledger;
pub mod network;
