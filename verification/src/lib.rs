//! Production-chain planning for a factory-simulation game.
//!
//! Given a catalog of recipes (output item, facility, craft time, input
//! materials), the library expands a target item and rate into the full tree
//! of facilities and per-second material flows needed to sustain it, with
//! path-based cycle prevention, cross-branch aggregation and a deterministic
//! display order.
//!
//! Rates and quantities are exact rationals ([`rat::Rat`]) rather than
//! floating-point numbers, so every computation in the chain is carried out
//! and specified exactly.

pub mod data;
pub mod dsp;
pub mod optimizer;
pub mod rat;
pub mod scrape;
pub mod timekeeper;
