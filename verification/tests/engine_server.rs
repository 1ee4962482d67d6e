use orderbook::engine::{can_process, process_request};
use orderbook::order_book::OrderBook;
use orderbook::server::{
    classify_engine_line, get_orderbook_reply, post_order_reply, ws_step, EngineLine, HttpReply,
    WsAction, WsEvent,
};
use orderbook::types::{
    EnginePush, EngineRequest, EngineResponse, Fill, OrderRequest, PriceLevel, Side,
};

fn fill(maker: u64, taker: u64, price: u64, qty: u64) -> Fill {
    Fill { maker_order_id: maker, taker_order_id: taker, price, qty }
}

#[test]
fn submit_requests_get_increasing_ids_and_fills() {
    let mut book = OrderBook::new();
    let req = EngineRequest::SubmitOrder { side: Side::Sell, price: 50, qty: 3 };
    assert!(can_process(&book, &req));
    match process_request(&mut book, req) {
        EngineResponse::Accepted { order_id, fills } => {
            assert_eq!(order_id, 1);
            assert!(fills.is_empty());
        },
        other => panic!("unexpected {other:?}"),
    }
    let req = EngineRequest::SubmitOrder { side: Side::Buy, price: 55, qty: 5 };
    match process_request(&mut book, req) {
        EngineResponse::Accepted { order_id, fills } => {
            assert_eq!(order_id, 2);
            assert_eq!(fills, vec![fill(1, 2, 50, 3)]);
        },
        other => panic!("unexpected {other:?}"),
    }
    match process_request(&mut book, EngineRequest::GetOrderBook) {
        EngineResponse::OrderBook { bids, asks } => {
            assert_eq!(bids, vec![PriceLevel { price: 55, qty: 2 }]);
            assert!(asks.is_empty());
        },
        other => panic!("unexpected {other:?}"),
    }
}

#[test]
fn get_orderbook_refused_when_a_level_overflows() {
    let mut book = OrderBook::new();
    process_request(&mut book, EngineRequest::SubmitOrder { side: Side::Buy, price: 1, qty: u64::MAX });
    process_request(&mut book, EngineRequest::SubmitOrder { side: Side::Buy, price: 1, qty: 1 });
    assert!(!can_process(&book, &EngineRequest::GetOrderBook));
    assert!(can_process(&book, &EngineRequest::SubmitOrder { side: Side::Sell, price: 9, qty: 1 }));
}

#[test]
fn order_request_becomes_submit() {
    let body = OrderRequest { side: Side::Buy, price: 7, qty: 9 };
    assert_eq!(body.to_engine_request(), EngineRequest::SubmitOrder { side: Side::Buy, price: 7, qty: 9 });
}

#[test]
fn post_order_replies() {
    match post_order_reply(Some(EngineResponse::Accepted { order_id: 4, fills: vec![fill(1, 4, 10, 2)] })) {
        HttpReply::OrderSubmitted { order_id, fills } => {
            assert_eq!(order_id, 4);
            assert_eq!(fills, vec![fill(1, 4, 10, 2)]);
        },
        other => panic!("unexpected {other:?}"),
    }
    match post_order_reply(Some(EngineResponse::Error { message: "bad".to_string() })) {
        HttpReply::ErrorMessage { status, message } => {
            assert_eq!(status, 400);
            assert_eq!(message, "bad");
        },
        other => panic!("unexpected {other:?}"),
    }
    assert!(matches!(
        post_order_reply(Some(EngineResponse::OrderBook { bids: vec![], asks: vec![] })),
        HttpReply::Empty { status: 500 }
    ));
    assert!(matches!(post_order_reply(None), HttpReply::Empty { status: 503 }));
}

#[test]
fn get_orderbook_replies() {
    match get_orderbook_reply(Some(EngineResponse::OrderBook {
        bids: vec![PriceLevel { price: 3, qty: 1 }],
        asks: vec![],
    })) {
        HttpReply::OrderBookSnapshot { bids, asks } => {
            assert_eq!(bids, vec![PriceLevel { price: 3, qty: 1 }]);
            assert!(asks.is_empty());
        },
        other => panic!("unexpected {other:?}"),
    }
    match get_orderbook_reply(Some(EngineResponse::Error { message: "down".to_string() })) {
        HttpReply::ErrorMessage { status, message } => {
            assert_eq!(status, 500);
            assert_eq!(message, "down");
        },
        other => panic!("unexpected {other:?}"),
    }
    assert!(matches!(
        get_orderbook_reply(Some(EngineResponse::Accepted { order_id: 1, fills: vec![] })),
        HttpReply::Empty { status: 500 }
    ));
    assert!(matches!(get_orderbook_reply(None), HttpReply::Empty { status: 503 }));
}

#[test]
fn engine_lines_are_classified() {
    let f = fill(1, 2, 3, 4);
    assert!(matches!(
        classify_engine_line(Some(EngineResponse::Error { message: "x".to_string() }), None),
        EngineLine::Response(EngineResponse::Error { .. })
    ));
    match classify_engine_line(None, Some(EnginePush::Fill(f))) {
        EngineLine::Fill(g) => assert_eq!(g, f),
        other => panic!("unexpected {other:?}"),
    }
    assert!(matches!(classify_engine_line(None, None), EngineLine::Other));
}

#[test]
fn websocket_steps() {
    let f = fill(5, 6, 7, 8);
    match ws_step(WsEvent::Fill(f)) {
        WsAction::Forward(g) => assert_eq!(g, f),
        other => panic!("unexpected {other:?}"),
    }
    match ws_step(WsEvent::Ping(vec![1, 2])) {
        WsAction::Pong(p) => assert_eq!(p, vec![1, 2]),
        other => panic!("unexpected {other:?}"),
    }
    assert!(matches!(ws_step(WsEvent::Lagged(3)), WsAction::Continue));
    assert!(matches!(ws_step(WsEvent::FeedClosed), WsAction::Stop));
    assert!(matches!(ws_step(WsEvent::Close), WsAction::CloseAndStop));
    assert!(matches!(ws_step(WsEvent::StreamError), WsAction::Stop));
    assert!(matches!(ws_step(WsEvent::StreamEnded), WsAction::Stop));
    assert!(matches!(ws_step(WsEvent::OtherMessage), WsAction::Continue));
}
