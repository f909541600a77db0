//! Bookkeeping core of a toy ledger: an append-only stream of transaction
//! events (deposit, withdrawal, dispute, resolve, chargeback) is replayed
//! against per-client accounts, and a snapshot of the final balances can be
//! taken at any point.
//!
//! Monetary amounts are fixed-point integers counting 1/10000ths of a
//! currency unit; reading and writing the delimited text format is left to
//! the surrounding program.

pub mod client_id;
pub mod client_info;
pub mod input_file_reader;
pub mod laws;
pub mod model;
pub mod output_record;
pub mod output_writer;
pub mod service;
pub mod transaction_id;
pub mod transaction_info;
