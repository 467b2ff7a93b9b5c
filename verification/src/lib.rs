//! Replays a log of deposits, withdrawals, disputes, resolutions and
//! chargebacks against a set of client accounts.
//!
//! Money is counted in ten-thousandths of a unit, so every amount the
//! library holds is exact to four decimal places.
//!
//! * [`decimal`] says how amounts are spelt as decimal numbers.
//! * [`amount`] reads and writes them.
//! * [`transaction`] holds the records, the ledger of deposits and
//!   withdrawals, and the replay itself.
//! * [`client`] holds the accounts and what each kind of record does to one.
//! * [`laws`] states what holds of all of this whatever the records are.

pub mod amount;
pub mod client;
pub mod decimal;
pub mod laws;
pub mod transaction;
