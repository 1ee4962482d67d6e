//! The engine's side of the protocol: each request from the front end is
//! answered from the one order book that the engine owns.
use vstd::prelude::*;

use crate::model::{
    ids_below, is_depth, lemma_ids_below, lemma_match_facts, lemma_rest_ids_below, lemma_submitted_wf, match_taker,
    submitted, totals_fit, BookView,
};
use crate::order_book::OrderBook;
use crate::types::{EngineRequest, EngineResponse, Order, Side};

verus! {

/// The order that a submit request becomes: it takes the book's next id.
pub open spec fn incoming_order(book: BookView, side: Side, price: u64, qty: u64) -> Order {
    Order { id: book.next_id, side, price, qty }
}

/// The book after `req` has been served.
pub open spec fn processed(book: BookView, req: EngineRequest) -> BookView {
    match req {
        EngineRequest::SubmitOrder { side, price, qty } => {
            let after = submitted(book, incoming_order(book, side, price, qty)).0;
            BookView { next_id: (book.next_id + 1) as u64, ..after }
        },
        EngineRequest::GetOrderBook => book,
    }
}

/// The book can serve `req` within machine limits: an order id is left to
/// hand out, and every price level's total fits in a `u64` for a snapshot.
pub open spec fn can_serve(book: BookView, req: EngineRequest) -> bool {
    match req {
        EngineRequest::SubmitOrder { .. } => book.next_id < u64::MAX,
        EngineRequest::GetOrderBook => totals_fit(book.bids) && totals_fit(book.asks),
    }
}

/// `resp` is the answer to `req` on `book`: a submitted order is accepted
/// under the book's next id with the fills that matching produced; a
/// snapshot lists both sides, best price first.
pub open spec fn answers(book: BookView, req: EngineRequest, resp: EngineResponse) -> bool {
    match req {
        EngineRequest::SubmitOrder { side, price, qty } => {
            &&& resp matches EngineResponse::Accepted { order_id, fills }
            &&& order_id == book.next_id
            &&& fills@ == submitted(book, incoming_order(book, side, price, qty)).1
        },
        EngineRequest::GetOrderBook => {
            &&& resp matches EngineResponse::OrderBook { bids, asks }
            &&& is_depth(bids@, book.bids, Side::Buy)
            &&& is_depth(asks@, book.asks, Side::Sell)
        },
    }
}

/// Whether `book` can serve `req` within machine limits.
pub fn can_process(book: &OrderBook, req: &EngineRequest) -> (ok: bool)
    ensures
        ok == can_serve(book@, *req),
{
    match req {
        EngineRequest::SubmitOrder { .. } => book.has_ids_left(),
        EngineRequest::GetOrderBook => book.depth_fits(),
    }
}

/// Serves one request: a submitted order gets the next id, is matched and
/// whatever is left rests; a book request gets a snapshot.
pub fn process_request(book: &mut OrderBook, req: EngineRequest) -> (resp: EngineResponse)
    requires
        old(book)@.shaped(),
        can_serve(old(book)@, req),
    ensures
        final(book)@.shaped(),
        old(book)@.wf() ==> final(book)@.wf(),
        final(book)@ == processed(old(book)@, req),
        answers(old(book)@, req, resp),
{
    match req {
        EngineRequest::SubmitOrder { side, price, qty } => {
            let order_id: u64 = book.next_id();
            let fills = book.submit(Order { id: order_id, side, price, qty });
            EngineResponse::Accepted { order_id, fills }
        },
        EngineRequest::GetOrderBook => {
            let (bids, asks) = book.snapshot();
            EngineResponse::OrderBook { bids, asks }
        },
    }
}

/// Order ids are never reused: if every resting order's id is below the
/// book's next id, that stays so after any request, and the next id never
/// goes down. Since a submitted order takes the next id, no order resting
/// at that moment has it.
pub proof fn law_ids_stay_fresh(book: BookView, req: EngineRequest)
    requires
        book.wf(),
        can_serve(book, req),
        ids_below(book.bids, book.next_id),
        ids_below(book.asks, book.next_id),
    ensures
        ids_below(processed(book, req).bids, processed(book, req).next_id),
        ids_below(processed(book, req).asks, processed(book, req).next_id),
        processed(book, req).next_id >= book.next_id,
{
    match req {
        EngineRequest::SubmitOrder { side, price, qty } => {
            let o = incoming_order(book, side, price, qty);
            let n = (book.next_id + 1) as u64;
            assert(ids_below(book.bids, n));
            assert(ids_below(book.asks, n));
            lemma_submitted_wf(book, o);
            match side {
                Side::Buy => {
                    lemma_ids_below(book.asks, o, n);
                    let left = match_taker(book.asks, o).left;
                    lemma_rest_ids_below(book.bids, Order { qty: left, ..o }, n);
                },
                Side::Sell => {
                    lemma_ids_below(book.bids, o, n);
                    let left = match_taker(book.bids, o).left;
                    lemma_rest_ids_below(book.asks, Order { qty: left, ..o }, n);
                },
            }
        },
        EngineRequest::GetOrderBook => {},
    }
}

/// A submit request is served exactly as `OrderBook::submit` of the order
/// that carries the request's side, limit price and quantity under the
/// book's next id; the book's next id then goes up by one.
pub proof fn law_submit_request_is_submit(
    book: BookView,
    side: Side,
    price: u64,
    qty: u64,
    resp: EngineResponse,
)
    requires
        answers(book, EngineRequest::SubmitOrder { side, price, qty }, resp),
    ensures
        ({
            let order = Order { id: book.next_id, side, price, qty };
            let (after, expected) = submitted(book, order);
            &&& resp matches EngineResponse::Accepted { order_id, fills }
            &&& order_id == book.next_id
            &&& fills@ == expected
            &&& processed(book, EngineRequest::SubmitOrder { side, price, qty }) == (BookView {
                next_id: (book.next_id + 1) as u64,
                ..after
            })
        }),
{
}

/// Every fill reported for a submit request belongs to the new order and
/// respects the request's limit: at or below it for a buy, at or above it
/// for a sell.
pub proof fn law_submit_request_respects_limit(
    book: BookView,
    side: Side,
    price: u64,
    qty: u64,
    resp: EngineResponse,
)
    requires
        book.wf(),
        answers(book, EngineRequest::SubmitOrder { side, price, qty }, resp),
    ensures
        resp matches EngineResponse::Accepted { order_id, fills } && forall|i: int|
            #![trigger fills@[i]]
            0 <= i < fills@.len() ==> {
                &&& fills@[i].taker_order_id == order_id
                &&& match side {
                    Side::Buy => fills@[i].price <= price,
                    Side::Sell => fills@[i].price >= price,
                }
            },
{
    let order = Order { id: book.next_id, side, price, qty };
    lemma_match_facts(book.opposite_of(side), order);
}

/// A submit request can be served exactly when an order id is left, whatever
/// its side, price or quantity.
pub proof fn law_submit_servable(book: BookView, side: Side, price: u64, qty: u64)
    ensures
        can_serve(book, EngineRequest::SubmitOrder { side, price, qty }) <==> book.next_id < u64::MAX,
{
}

/// A book request can be served exactly when every price level's total
/// resting quantity fits in a `u64`; in particular an empty book, and any
/// book whose levels hold no more than that, is always served.
pub proof fn law_snapshot_servable(book: BookView)
    ensures
        can_serve(book, EngineRequest::GetOrderBook) <==> (totals_fit(book.bids) && totals_fit(
            book.asks,
        )),
        book.bids.dom().is_empty() && book.asks.dom().is_empty() ==> can_serve(
            book,
            EngineRequest::GetOrderBook,
        ),
{
}

} // verus!
