//! A multi-asset reward ledger: operators fund per-asset pools, a distributor
//! assigns shares of them to beneficiaries, and beneficiaries withdraw what the
//! asset's precision lets them take, the rest staying assigned.
pub mod amount;
pub mod pool;
pub mod engine;
