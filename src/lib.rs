//! Core primitives of a Proof-of-Capacity node: an ordered, dependency-aware
//! memory pool of unconfirmed transactions, and the work-hash arithmetic and
//! scanning logic used to search plot files for a valid nonce.
pub mod mempool;
pub mod merkle;
pub mod plotname;
pub mod utils;
pub mod workhash;
