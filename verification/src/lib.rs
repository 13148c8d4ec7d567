//! An index over a UTXO ledger. It numbers the units of the ledger and
//! follows each through every transfer, keeps the balances of tokens that
//! transactions etch, mint and move, commits block by block, and undoes
//! blocks that the ledger drops.

pub mod allocation;
pub mod chain;
pub mod commit;
pub mod decoder;
pub mod envelope;
pub mod error;
pub mod index;
pub mod inscription_laws;
pub mod issuance;
pub mod ledger;
pub mod message;
pub mod purse;
pub mod query;
pub mod rune;
pub mod spaced_laws;
pub mod spaced_rune;
pub mod store;
pub mod token;
pub mod token_laws;
pub mod unit_index;
pub mod unit_laws;
pub mod unit_unique;
pub mod units;
pub mod varint;

pub use crate::error::Error;
pub use crate::rune::Rune;
pub use crate::spaced_rune::SpacedRune;
