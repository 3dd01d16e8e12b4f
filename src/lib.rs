//! A bonding-curve share market: pricing, fee split, and the share ledger
//! with its market operations, all verified.
pub mod error;
pub mod utils;
pub mod state;
pub mod gg;
