//! Ordinal accounting for a UTXO ledger: every satoshi ever minted gets a
//! stable integer identifier determined by issuance order.  This crate holds
//! the two verified subsystems: the pure codec between an identifier and its
//! textual forms (name, decimal, degree), together with the derived
//! classifications (epoch, period, cycle, rarity), and the ordinal-aware
//! transaction builder that moves a chosen identifier to a recipient while
//! preserving fee, dust, postage and rare-identifier invariants.

use vstd::prelude::*;

mod chars;
mod decimal;
mod degree;
mod dust;
mod epoch;
mod fees;
mod height;
mod ordinal;
mod rarity;
mod templates;
mod transaction_builder;

pub use decimal::Decimal;
pub use degree::Degree;
pub use epoch::Epoch;
pub use height::Height;
pub use ordinal::Ordinal;
pub use ordinal::ParseError;
pub use rarity::Rarity;
pub use templates::RangeHtml;
pub use transaction_builder::Address;
pub use transaction_builder::Error;
pub use transaction_builder::OutPoint;
pub use transaction_builder::Transaction;
pub use transaction_builder::TransactionBuilder;
pub use transaction_builder::TxIn;
pub use transaction_builder::TxOut;

verus! {

/// Value of one coin in satoshis.
pub const COIN_VALUE: u64 = 100_000_000;

/// Number of blocks between difficulty adjustments.
pub const DIFFCHANGE_INTERVAL: u64 = 2016;

/// Number of blocks between subsidy halvings; the length of one epoch.
pub const SUBSIDY_HALVING_INTERVAL: u64 = 210_000;

/// Number of epochs in one cycle, chosen so that epoch and difficulty-period
/// boundaries realign: `CYCLE_EPOCHS * SUBSIDY_HALVING_INTERVAL` is a
/// multiple of `DIFFCHANGE_INTERVAL`.
pub const CYCLE_EPOCHS: u64 = 6;

/// How far the epoch boundary shifts within the difficulty period at each
/// halving: `SUBSIDY_HALVING_INTERVAL % DIFFCHANGE_INTERVAL`.
pub const HALVING_INCREMENT: u64 = 210_000 % 2016;

} // verus!
