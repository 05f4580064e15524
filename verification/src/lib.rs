//! A small scripted ledger: a script is a list of instructions that is run,
//! in order, against a table of account balances.
//!
//! The functions of this crate are verified against their contracts, with
//! two exceptions, both in `wire`: `encode_amount` and `decode_amount` call
//! `bincode` for the eight bytes of a payment's amount, and their contracts
//! are trusted, not proved. The model of the ledger is a sequence of
//! accounts with pairwise distinct keys; the contracts of the instructions
//! and of the script engine are stated over it.

pub mod error;
pub mod instructions;
pub mod laws;
pub mod ledger;
pub mod script;
pub mod wire;

pub use error::{DecodeCause, FrankolangError, FrankolangErrorKind};
pub use ledger::{Account, State};
pub use script::FrankolangScript;
