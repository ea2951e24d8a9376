//! A simulated in-memory ledger: an append-only chain of blocks linked by
//! SHA-256 digests and sealed by a proof-of-work puzzle, plus a fungible
//! token layer (mint / transfer) over string-addressed accounts.

pub mod blockchain;
pub mod hashing;
pub mod keyed;
pub mod ledger;
pub mod wallet;
