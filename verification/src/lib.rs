//! An off-chain price oracle core: a periodic worker resolves an external
//! source from configuration text, fetches a quote, normalizes it to an
//! integer price, folds it into a bounded rolling history, and reports
//! per-identity submission outcomes.
//!
//! The host environment (scheduling, HTTP transport, key store, ledger
//! dispatch) is an external collaborator: it drives the functions here and
//! performs the I/O they decide on.

pub mod cycle;
pub mod decimal;
pub mod history;
pub mod rates;
pub mod source;
pub mod text;
