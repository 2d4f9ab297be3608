pub mod services;
pub mod binance;
pub mod bitstamp;
pub mod app;
