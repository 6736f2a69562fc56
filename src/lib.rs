//! A ledger for a small NFT marketplace: minting, per-owner listings,
//! fixed-price sales and withdrawal of sale proceeds.
pub mod token;
pub mod ledger;
pub mod laws;

pub use ledger::Contract;
pub use token::{AccountId, Balance, LedgerError, TokenData, TokenId, TokenMetadata, TokenStatus};
