//! The HTTP front end's decisions: what it asks the engine, how it answers
//! its clients, and how it handles what arrives from the engine and from a
//! websocket client.
use vstd::prelude::*;

use crate::types::{EnginePush, EngineRequest, EngineResponse, Fill, OrderRequest, PriceLevel};

verus! {

/// The answer to an HTTP request: a status and a JSON body, if any.
#[derive(Debug)]
pub enum HttpReply {
    /// 200 with `{"order_id", "fills"}`
    OrderSubmitted { order_id: u64, fills: Vec<Fill> },
    /// 200 with `{"bids", "asks"}`
    OrderBookSnapshot { bids: Vec<PriceLevel>, asks: Vec<PriceLevel> },
    /// the status with `{"error": message}`
    ErrorMessage { status: u16, message: String },
    /// the status with no body
    Empty { status: u16 },
}

impl OrderRequest {
    /// The engine request that `POST /orders` sends for this body.
    pub fn to_engine_request(&self) -> (req: EngineRequest)
        ensures
            req == (EngineRequest::SubmitOrder { side: self.side, price: self.price, qty: self.qty }),
    {
        EngineRequest::SubmitOrder { side: self.side, price: self.price, qty: self.qty }
    }
}

/// How `POST /orders` answers, given the engine's response (`None` when the
/// engine could not be reached): 200 with the order id and its fills, 400
/// with the engine's error message, 500 for any other response, 503 when
/// the engine is unreachable.
pub fn post_order_reply(res: Option<EngineResponse>) -> (reply: HttpReply)
    ensures
        match res {
            Some(EngineResponse::Accepted { order_id, fills }) => reply == (HttpReply::OrderSubmitted { order_id, fills }),
            Some(EngineResponse::Error { message }) => reply == (HttpReply::ErrorMessage { status: 400, message }),
            Some(EngineResponse::OrderBook { .. }) => reply == (HttpReply::Empty { status: 500 }),
            None => reply == (HttpReply::Empty { status: 503 }),
        },
{
    match res {
        Some(EngineResponse::Accepted { order_id, fills }) => HttpReply::OrderSubmitted { order_id, fills },
        Some(EngineResponse::Error { message }) => HttpReply::ErrorMessage { status: 400, message },
        Some(EngineResponse::OrderBook { .. }) => HttpReply::Empty { status: 500 },
        None => HttpReply::Empty { status: 503 },
    }
}

/// How `GET /orderbook` answers, given the engine's response (`None` when
/// the engine could not be reached): 200 with both sides, 500 with the
/// engine's error message, 500 for any other response, 503 when the engine
/// is unreachable.
pub fn get_orderbook_reply(res: Option<EngineResponse>) -> (reply: HttpReply)
    ensures
        match res {
            Some(EngineResponse::OrderBook { bids, asks }) => reply == (HttpReply::OrderBookSnapshot { bids, asks }),
            Some(EngineResponse::Error { message }) => reply == (HttpReply::ErrorMessage { status: 500, message }),
            Some(EngineResponse::Accepted { .. }) => reply == (HttpReply::Empty { status: 500 }),
            None => reply == (HttpReply::Empty { status: 503 }),
        },
{
    match res {
        Some(EngineResponse::OrderBook { bids, asks }) => HttpReply::OrderBookSnapshot { bids, asks },
        Some(EngineResponse::Error { message }) => HttpReply::ErrorMessage { status: 500, message },
        Some(EngineResponse::Accepted { .. }) => HttpReply::Empty { status: 500 },
        None => HttpReply::Empty { status: 503 },
    }
}

/// What a line from the engine is, to a client waiting for its response.
#[derive(Debug)]
pub enum EngineLine {
    /// the response being waited for
    Response(EngineResponse),
    /// a fill pushed meanwhile, to be passed on to websocket clients
    Fill(Fill),
    /// neither; it is skipped
    Other,
}

/// Classifies a line from the engine from its two readings: as a response
/// (tried first) and as a push.
pub fn classify_engine_line(as_response: Option<EngineResponse>, as_push: Option<EnginePush>) -> (line: EngineLine)
    ensures
        match as_response {
            Some(resp) => line == EngineLine::Response(resp),
            None => match as_push {
                Some(EnginePush::Fill(fill)) => line == EngineLine::Fill(fill),
                None => line == EngineLine::Other,
            },
        },
{
    match as_response {
        Some(resp) => EngineLine::Response(resp),
        None => match as_push {
            Some(EnginePush::Fill(fill)) => EngineLine::Fill(fill),
            None => EngineLine::Other,
        },
    }
}

/// Something that happens on a websocket session that forwards fills.
#[derive(Debug)]
pub enum WsEvent {
    /// a fill arrived from the engine feed
    Fill(Fill),
    /// the feed skipped this many fills because the session fell behind
    Lagged(u64),
    /// the engine feed ended
    FeedClosed,
    /// the client sent a ping with this payload
    Ping(Vec<u8>),
    /// the client asked to close
    Close,
    /// the client's stream failed
    StreamError,
    /// the client's stream ended
    StreamEnded,
    /// any other client message
    OtherMessage,
}

/// What the session does next.
#[derive(Debug)]
pub enum WsAction {
    /// send the fill to the client as JSON text
    Forward(Fill),
    /// answer with a pong carrying this payload
    Pong(Vec<u8>),
    /// close the session and stop
    CloseAndStop,
    /// stop without closing
    Stop,
    /// keep going
    Continue,
}

/// The websocket session's reaction to one event: fills are forwarded,
/// pings answered, a close request honoured; a lag is tolerated and other
/// client messages ignored; a closed feed, a failed or ended client stream
/// end the session.
pub fn ws_step(event: WsEvent) -> (action: WsAction)
    ensures
        match event {
            WsEvent::Fill(fill) => action == WsAction::Forward(fill),
            WsEvent::Lagged(_) => action == WsAction::Continue,
            WsEvent::FeedClosed => action == WsAction::Stop,
            WsEvent::Ping(payload) => action == WsAction::Pong(payload),
            WsEvent::Close => action == WsAction::CloseAndStop,
            WsEvent::StreamError => action == WsAction::Stop,
            WsEvent::StreamEnded => action == WsAction::Stop,
            WsEvent::OtherMessage => action == WsAction::Continue,
        },
{
    match event {
        WsEvent::Fill(fill) => WsAction::Forward(fill),
        WsEvent::Lagged(_) => WsAction::Continue,
        WsEvent::FeedClosed => WsAction::Stop,
        WsEvent::Ping(payload) => WsAction::Pong(payload),
        WsEvent::Close => WsAction::CloseAndStop,
        WsEvent::StreamError => WsAction::Stop,
        WsEvent::StreamEnded => WsAction::Stop,
        WsEvent::OtherMessage => WsAction::Continue,
    }
}

} // verus!
