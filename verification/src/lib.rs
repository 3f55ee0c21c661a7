//! A peer-to-peer betting exchange: per-selection order books with
//! price-time priority, a crossing matcher, and market expiry and settlement.

pub mod arith;
pub mod sums;
pub mod types;
pub mod bet_scheduler;
pub mod fund;
pub mod invariants;
pub mod views;
pub mod validate;
pub mod events;
