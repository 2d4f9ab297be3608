//! Order book aggregation: exact decimal prices, per-exchange price
//! level books, the capped best-levels book served to clients, and the
//! decisions taken on each message that arrives from an exchange.
pub mod decimal;
pub mod sorted;
pub mod ranking;
pub mod server;
pub mod levels;
pub mod common;
pub mod text;
pub mod market;
