//! A verified limit-order matching engine for a multi-symbol spot trading
//! platform.
//!
//! The crate provides per-symbol order books with price-time priority
//! matching, self-trade prevention, the common time-in-force regimes,
//! monotonic sequencing and book versioning, an intake validator, an event
//! envelope model, and a multi-symbol engine that routes commands to books
//! and assembles the events to publish.
//!
//! All quantities, prices and monetary values are exact fixed-point decimals,
//! represented as integer counts of a minimal unit; no floating point is used
//! anywhere.

pub mod api;
pub mod clock;
pub mod config;
pub mod decimal;
pub mod engine;
pub mod error;
pub mod events;
pub mod laws;
pub mod ident;
pub mod level;
pub mod model;
pub mod orderbook;
pub mod types;
