//! A price-time priority limit order book with its matching engine,
//! together with the request/response vocabulary spoken between the
//! HTTP front end and the engine.

pub mod engine;
pub mod laws;
pub mod model;
pub mod order_book;
pub mod server;
pub mod types;
