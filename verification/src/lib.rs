//! A single-instrument limit-order matching engine.
//!
//! The engine accepts buy ("bid") and sell ("ask") orders carrying a price and
//! a quantity, matches crossing orders against a resting order book with
//! price-time priority, and settles each trade atomically on a ledger of
//! per-user balances. Prices are integral ticks and balances are unsigned
//! integers, so no value can be created, destroyed, or driven negative.

pub mod book;
pub mod engine;
pub mod laws;
pub mod ledger;
pub mod order;

pub use engine::MatchingEngine;
pub use engine::hello;
pub use engine::rocket;
pub use ledger::Account;
pub use ledger::Ledger;
pub use book::OrderBook;
pub use order::EngineError;
pub use order::Order;
pub use order::Side;
