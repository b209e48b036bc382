//! A price-time-priority limit order book matching engine.
//!
//! The library keeps per-symbol order books, matches incoming Limit and
//! Market orders against resting orders under best-price-first /
//! first-in-first-out rules, holds StopLimit orders dormant until the last
//! traded price crosses their trigger, and exposes a depth / best-price
//! query surface. Prices and quantities are exact fixed-point values held
//! in integer minor units.

pub mod config;
pub mod engine;
pub mod levels;
pub mod matching;
pub mod models;
pub mod orderbook;
pub mod snapshot;
