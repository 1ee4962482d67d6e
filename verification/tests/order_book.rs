use orderbook::order_book::OrderBook;
use orderbook::types::{Fill, Order, PriceLevel, Side};

fn order(id: u64, side: Side, price: u64, qty: u64) -> Order {
    Order { id, side, price, qty }
}

fn fill(maker: u64, taker: u64, price: u64, qty: u64) -> Fill {
    Fill { maker_order_id: maker, taker_order_id: taker, price, qty }
}

fn queue_at(book: &OrderBook, side: Side, price: u64) -> Vec<Order> {
    let side_map = match side {
        Side::Buy => &book.bids,
        Side::Sell => &book.asks,
    };
    match side_map.get(&price) {
        Some(q) => q.iter().copied().collect(),
        None => Vec::new(),
    }
}

#[test]
fn new_book_is_empty_and_ids_start_at_one() {
    let mut book = OrderBook::new();
    assert!(book.bids.is_empty());
    assert!(book.asks.is_empty());
    assert_eq!(book.next_id(), 1);
    assert_eq!(book.next_id(), 2);
    assert_eq!(book.next_id(), 3);
}

#[test]
fn order_without_counterparty_rests() {
    let mut book = OrderBook::new();
    let fills = book.submit(order(1, Side::Buy, 100, 10));
    assert!(fills.is_empty());
    assert_eq!(queue_at(&book, Side::Buy, 100), vec![order(1, Side::Buy, 100, 10)]);
    assert!(book.asks.is_empty());
}

#[test]
fn non_crossing_orders_do_not_trade() {
    let mut book = OrderBook::new();
    assert!(book.submit(order(1, Side::Buy, 99, 5)).is_empty());
    assert!(book.submit(order(2, Side::Sell, 100, 5)).is_empty());
    assert_eq!(book.bids.len(), 1);
    assert_eq!(book.asks.len(), 1);
}

#[test]
fn full_fill_at_maker_price_removes_both() {
    let mut book = OrderBook::new();
    book.submit(order(1, Side::Sell, 100, 10));
    let fills = book.submit(order(2, Side::Buy, 105, 10));
    assert_eq!(fills, vec![fill(1, 2, 100, 10)]);
    assert!(book.asks.is_empty());
    assert!(book.bids.is_empty());
}

#[test]
fn partial_fill_of_maker_keeps_its_place() {
    let mut book = OrderBook::new();
    book.submit(order(1, Side::Sell, 100, 10));
    book.submit(order(2, Side::Sell, 100, 7));
    let fills = book.submit(order(3, Side::Buy, 100, 4));
    assert_eq!(fills, vec![fill(1, 3, 100, 4)]);
    assert_eq!(
        queue_at(&book, Side::Sell, 100),
        vec![order(1, Side::Sell, 100, 6), order(2, Side::Sell, 100, 7)]
    );
    assert!(book.bids.is_empty());
}

#[test]
fn taker_remainder_rests_at_its_limit() {
    let mut book = OrderBook::new();
    book.submit(order(1, Side::Sell, 100, 3));
    let fills = book.submit(order(2, Side::Buy, 101, 10));
    assert_eq!(fills, vec![fill(1, 2, 100, 3)]);
    assert!(book.asks.is_empty());
    assert_eq!(queue_at(&book, Side::Buy, 101), vec![order(2, Side::Buy, 101, 7)]);
}

#[test]
fn buy_sweeps_asks_lowest_first_and_fifo() {
    let mut book = OrderBook::new();
    book.submit(order(1, Side::Sell, 102, 5));
    book.submit(order(2, Side::Sell, 100, 2));
    book.submit(order(3, Side::Sell, 101, 4));
    book.submit(order(4, Side::Sell, 100, 3));
    let fills = book.submit(order(5, Side::Buy, 101, 8));
    assert_eq!(fills, vec![fill(2, 5, 100, 2), fill(4, 5, 100, 3), fill(3, 5, 101, 3)]);
    assert_eq!(queue_at(&book, Side::Sell, 101), vec![order(3, Side::Sell, 101, 1)]);
    assert_eq!(queue_at(&book, Side::Sell, 102), vec![order(1, Side::Sell, 102, 5)]);
    assert!(book.bids.is_empty());
}

#[test]
fn sell_sweeps_bids_highest_first() {
    let mut book = OrderBook::new();
    book.submit(order(1, Side::Buy, 98, 5));
    book.submit(order(2, Side::Buy, 100, 2));
    book.submit(order(3, Side::Buy, 99, 4));
    let fills = book.submit(order(4, Side::Sell, 99, 10));
    assert_eq!(fills, vec![fill(2, 4, 100, 2), fill(3, 4, 99, 4)]);
    assert_eq!(queue_at(&book, Side::Buy, 98), vec![order(1, Side::Buy, 98, 5)]);
    assert_eq!(queue_at(&book, Side::Sell, 99), vec![order(4, Side::Sell, 99, 4)]);
}

#[test]
fn sell_stops_at_limit() {
    let mut book = OrderBook::new();
    book.submit(order(1, Side::Buy, 97, 5));
    let fills = book.submit(order(2, Side::Sell, 98, 5));
    assert!(fills.is_empty());
    assert_eq!(queue_at(&book, Side::Sell, 98), vec![order(2, Side::Sell, 98, 5)]);
}

#[test]
fn zero_quantity_taker_yields_one_empty_fill_and_never_rests() {
    let mut book = OrderBook::new();
    book.submit(order(1, Side::Sell, 100, 5));
    let fills = book.submit(order(2, Side::Buy, 100, 0));
    assert_eq!(fills, vec![fill(1, 2, 100, 0)]);
    assert_eq!(queue_at(&book, Side::Sell, 100), vec![order(1, Side::Sell, 100, 5)]);
    assert!(book.bids.is_empty());
    // and against an empty side it does not rest
    let fills = book.submit(order(3, Side::Sell, 200, 0));
    assert!(fills.is_empty());
    assert!(queue_at(&book, Side::Sell, 200).is_empty());
}

#[test]
fn quantity_is_conserved() {
    let mut book = OrderBook::new();
    book.submit(order(1, Side::Sell, 100, 4));
    book.submit(order(2, Side::Sell, 101, 4));
    let fills = book.submit(order(3, Side::Buy, 101, 10));
    let filled: u64 = fills.iter().map(|f| f.qty).sum();
    let rested: u64 = queue_at(&book, Side::Buy, 101).iter().map(|o| o.qty).sum();
    assert_eq!(filled, 8);
    assert_eq!(filled + rested, 10);
}

#[test]
fn snapshot_orders_and_totals() {
    let mut book = OrderBook::new();
    book.submit(order(1, Side::Buy, 98, 5));
    book.submit(order(2, Side::Buy, 100, 2));
    book.submit(order(3, Side::Buy, 100, 3));
    book.submit(order(4, Side::Buy, 99, 4));
    book.submit(order(5, Side::Sell, 103, 1));
    book.submit(order(6, Side::Sell, 101, 6));
    book.submit(order(7, Side::Sell, 103, 2));
    assert!(book.depth_fits());
    let (bids, asks) = book.snapshot();
    assert_eq!(
        bids,
        vec![
            PriceLevel { price: 100, qty: 5 },
            PriceLevel { price: 99, qty: 4 },
            PriceLevel { price: 98, qty: 5 },
        ]
    );
    assert_eq!(asks, vec![PriceLevel { price: 101, qty: 6 }, PriceLevel { price: 103, qty: 3 }]);
}

#[test]
fn snapshot_of_empty_book() {
    let book = OrderBook::new();
    let (bids, asks) = book.snapshot();
    assert!(bids.is_empty());
    assert!(asks.is_empty());
}

#[test]
fn book_never_crossed_after_submits() {
    let mut book = OrderBook::new();
    let orders = [
        (Side::Buy, 100, 5),
        (Side::Sell, 99, 3),
        (Side::Sell, 101, 7),
        (Side::Buy, 102, 10),
        (Side::Sell, 95, 20),
        (Side::Buy, 96, 1),
    ];
    for (i, (side, price, qty)) in orders.iter().enumerate() {
        book.submit(order(i as u64 + 1, *side, *price, *qty));
        let best_bid = book.bids.keys().next_back().copied();
        let best_ask = book.asks.keys().next().copied();
        if let (Some(b), Some(a)) = (best_bid, best_ask) {
            assert!(b < a);
        }
    }
}

#[test]
fn depth_fits_detects_overflowing_level() {
    let mut book = OrderBook::new();
    book.submit(order(1, Side::Buy, 10, u64::MAX));
    assert!(book.depth_fits());
    book.submit(order(2, Side::Buy, 10, 1));
    assert!(!book.depth_fits());
}

#[test]
fn has_ids_left_on_fresh_book() {
    let book = OrderBook::new();
    assert!(book.has_ids_left());
}
