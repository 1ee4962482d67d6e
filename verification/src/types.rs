//! Domain values shared by the engine and the HTTP front end.
use vstd::prelude::*;

verus! {

/// Which side of the book an order belongs to.
#[derive(Clone, Copy, Debug, PartialEq, Eq, Structural)]
pub enum Side {
    Buy,
    Sell,
}

/// A limit order; prices are integer ticks.
#[derive(Clone, Copy, Debug, PartialEq, Eq, Structural)]
pub struct Order {
    pub id: u64,
    pub side: Side,
    pub price: u64,
    pub qty: u64,
}

/// One execution between a resting (maker) order and an incoming (taker) order.
#[derive(Clone, Copy, Debug, PartialEq, Eq, Structural)]
pub struct Fill {
    pub maker_order_id: u64,
    pub taker_order_id: u64,
    pub price: u64,
    pub qty: u64,
}

/// One price level in an order book snapshot.
#[derive(Clone, Copy, Debug, PartialEq, Eq, Structural)]
pub struct PriceLevel {
    pub price: u64,
    /// total resting quantity at this price
    pub qty: u64,
}

/// What the front end asks of the engine.
#[derive(Clone, Copy, Debug, PartialEq, Eq, Structural)]
pub enum EngineRequest {
    SubmitOrder { side: Side, price: u64, qty: u64 },
    GetOrderBook,
}

/// The engine's answer to one request.
#[derive(Debug)]
pub enum EngineResponse {
    Accepted { order_id: u64, fills: Vec<Fill> },
    OrderBook { bids: Vec<PriceLevel>, asks: Vec<PriceLevel> },
    Error { message: String },
}

/// What the engine sends unasked, on the same stream.
#[derive(Clone, Copy, Debug, PartialEq, Eq, Structural)]
pub enum EnginePush {
    Fill(Fill),
}

/// The body of `POST /orders`.
#[derive(Clone, Copy, Debug, PartialEq, Eq, Structural)]
pub struct OrderRequest {
    pub side: Side,
    pub price: u64,
    pub qty: u64,
}

} // verus!
