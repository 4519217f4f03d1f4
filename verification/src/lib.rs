//! Accounting and exchange core for a tokenized carbon-credit platform.
//!
//! The crate manages two kinds of fungible records, a general settlement
//! token and a verified carbon unit with a permanent retirement operation,
//! and provides the order-book matching and settlement engine on top of
//! them: price/time matching, atomic multi-leg settlement with a
//! basis-point fee, and a constant-product liquidity pool.  Every operation
//! validates all of its preconditions before mutating anything, and every
//! operation preserves the conservation invariant that ties each token's
//! recorded supply to the sum of free balances, order escrows and pool
//! reserves.

pub mod engine;
pub mod laws;
pub mod ledger;
pub mod market;
pub mod math;
pub mod pool;
pub mod records;
pub mod settle;
pub mod sums;
