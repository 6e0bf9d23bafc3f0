//! A limit order book: price/time priority matching of market and limit
//! orders, time-in-force policy, and a per-account balance ledger.
pub mod book;
pub mod engine;
pub mod error;
pub mod laws;
pub mod ledger;
pub mod matching;
pub mod models;
pub mod msg;
pub mod query;
pub mod utils;
pub mod validate;
