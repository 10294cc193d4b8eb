//! A client account ledger driven by an ordered stream of transaction records.

pub mod account;
pub mod amount;
pub mod disputes;
pub mod error;
pub mod ingest;
pub mod laws;
pub mod parse;
pub mod record;
pub mod table;
pub mod text;
pub mod transactions;

pub use account::{AccInfo, Ledger, Txs};
pub use amount::{Decimal, Funds};
pub use error::Errors;
pub use ingest::ingest;
pub use record::{Input, Operation};
pub use table::fmt_output;
pub use transactions::{chargeback, deposit, dispute, operate_account, resolve, withdrawal};
