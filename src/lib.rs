//! Token ledger and lifecycle engine for carbon-credit and project-NFT tokens.
//!
//! The library keeps balances, operator relations and per-token records, and
//! applies mint, transfer, retire and retract requests under the invariant that
//! every token's balances plus its retired amount equal what was minted of it.
//! Every mutating operation either succeeds as a whole or leaves the ledger as
//! it was.

pub mod types;
pub mod entries;
pub mod ledger;
pub mod engine;
pub mod laws;
