//! The mathematical model of the order book and its matching.
//!
//! Each side of the book maps a price to the FIFO queue of orders resting
//! there. An incoming (taker) order trades against the opposite side in
//! price-time priority: best price first (lowest ask for a buy, highest bid
//! for a sell), and oldest order first within a price. Every fill happens
//! at the resting (maker) order's price. Whatever quantity is left after
//! matching rests on the taker's own side at its limit price.
use std::collections::BTreeMap;
use std::collections::VecDeque;
use vstd::prelude::*;

use crate::types::{Fill, Order, PriceLevel, Side};

verus! {

// ---------------------------------------------------------------------------
// Mathematical model
// ---------------------------------------------------------------------------

/// One side of the book as a map from price to the queue of resting orders,
/// oldest first.
pub open spec fn levels(m: BTreeMap<u64, VecDeque<Order>>) -> Map<u64, Seq<Order>> {
    m@.map_values(|q: VecDeque<Order>| q@)
}

/// The side whose resting orders an order on `side` trades against.
pub open spec fn opposite(side: Side) -> Side {
    match side {
        Side::Buy => Side::Sell,
        Side::Sell => Side::Buy,
    }
}

/// `p` is the least element of `s`.
pub open spec fn is_lowest(s: Set<u64>, p: u64) -> bool {
    s.contains(p) && forall|q: u64| s.contains(q) ==> p <= q
}

/// `p` is the greatest element of `s`.
pub open spec fn is_highest(s: Set<u64>, p: u64) -> bool {
    s.contains(p) && forall|q: u64| s.contains(q) ==> q <= p
}

/// `p` is the price that a taker on `taker_side` meets first among the
/// resting prices `s`: the lowest ask for a buyer, the highest bid for a
/// seller.
pub open spec fn is_best(taker_side: Side, s: Set<u64>, p: u64) -> bool {
    match taker_side {
        Side::Buy => is_lowest(s, p),
        Side::Sell => is_highest(s, p),
    }
}

/// The best resting price for a taker on `taker_side` (meaningful when `s`
/// is finite and not empty).
pub open spec fn best_price(taker_side: Side, s: Set<u64>) -> u64 {
    choose|p: u64| is_best(taker_side, s, p)
}

/// A resting price `p` is acceptable to the taker's limit.
pub open spec fn crosses(taker: Order, p: u64) -> bool {
    match taker.side {
        Side::Buy => p <= taker.price,
        Side::Sell => taker.price <= p,
    }
}

/// The quantity of one execution: the smaller of the two open quantities.
pub open spec fn fill_qty(taker_qty: u64, maker_qty: u64) -> u64 {
    if taker_qty < maker_qty {
        taker_qty
    } else {
        maker_qty
    }
}

/// The book side after `q` has been taken from the first order resting at `p`:
/// that order shrinks by `q`, leaves its queue when nothing is left of it, and
/// the price level disappears when its queue becomes empty.
pub open spec fn after_fill(book: Map<u64, Seq<Order>>, p: u64, q: u64) -> Map<u64, Seq<Order>> {
    let level = book[p];
    let maker = level[0];
    let level2 = if maker.qty - q == 0 {
        level.drop_first()
    } else {
        level.update(0, Order { qty: (maker.qty - q) as u64, ..maker })
    };
    if level2.len() == 0 {
        book.remove(p)
    } else {
        book.insert(p, level2)
    }
}

/// What matching a taker against one side of the book produces.
pub struct MatchOutcome {
    /// the opposite side afterwards
    pub book: Map<u64, Seq<Order>>,
    /// the executions, in the order they happen
    pub fills: Seq<Fill>,
    /// the taker's quantity left unfilled
    pub left: u64,
}

/// Matching of `taker` against the opposite side `book`, one execution at a
/// time, in price-time priority, until the taker is filled or the best
/// resting price no longer crosses its limit.
pub open spec fn match_taker(book: Map<u64, Seq<Order>>, taker: Order) -> MatchOutcome
    decreases book.dom().len(), book[best_price(taker.side, book.dom())].len(),
    when book.dom().finite()
{
    let p = best_price(taker.side, book.dom());
    if book.dom().len() == 0 || !crosses(taker, p) || book[p].len() == 0 {
        MatchOutcome { book, fills: Seq::empty(), left: taker.qty }
    } else {
        let maker = book[p][0];
        let q = fill_qty(taker.qty, maker.qty);
        let fill = Fill {
            maker_order_id: maker.id,
            taker_order_id: taker.id,
            price: maker.price,
            qty: q,
        };
        let rest = after_fill(book, p, q);
        if taker.qty - q == 0 {
            MatchOutcome { book: rest, fills: seq![fill], left: 0 }
        } else {
            proof {
                lemma_best_price(taker.side, book.dom());
                if book[p].len() > 1 {
                    assert(rest.dom() =~= book.dom());
                }
            }
            let r = match_taker(rest, Order { qty: (taker.qty - q) as u64, ..taker });
            MatchOutcome { book: r.book, fills: seq![fill] + r.fills, left: r.left }
        }
    }
}

// ---------------------------------------------------------------------------
// Lemmas on the model
// ---------------------------------------------------------------------------

/// A finite, non-empty set of prices has a lowest and a highest element.
pub proof fn lemma_extremes_exist(s: Set<u64>)
    requires
        s.finite(),
        s.len() > 0,
    ensures
        exists|p: u64| is_lowest(s, p),
        exists|p: u64| is_highest(s, p),
    decreases s.len(),
{
    let x = s.choose();
    assert(s.contains(x));
    let t = s.remove(x);
    if t.len() == 0 {
        assert forall|q: u64| s.contains(q) implies q == x by {
            if q != x {
                assert(t.contains(q));
            }
        }
        assert(is_lowest(s, x));
        assert(is_highest(s, x));
    } else {
        lemma_extremes_exist(t);
        let lo = choose|p: u64| is_lowest(t, p);
        let hi = choose|p: u64| is_highest(t, p);
        if lo <= x {
            assert(is_lowest(s, lo));
        } else {
            assert(is_lowest(s, x));
        }
        if x <= hi {
            assert(is_highest(s, hi));
        } else {
            assert(is_highest(s, x));
        }
    }
}

/// The best price of a finite, non-empty set of prices is in the set, and it
/// is the only price with that property.
pub proof fn lemma_best_price(side: Side, s: Set<u64>)
    requires
        s.finite(),
        s.len() > 0,
    ensures
        is_best(side, s, best_price(side, s)),
        s.contains(best_price(side, s)),
        forall|p: u64| is_best(side, s, p) ==> p == best_price(side, s),
{
    lemma_extremes_exist(s);
    match side {
        Side::Buy => {
            let w = choose|p: u64| is_lowest(s, p);
            assert(is_best(side, s, w));
        },
        Side::Sell => {
            let w = choose|p: u64| is_highest(s, p);
            assert(is_best(side, s, w));
        },
    }
}


/// A side of the book has finitely many price levels and none of them is empty.
pub open spec fn side_shaped(book: Map<u64, Seq<Order>>) -> bool {
    &&& book.dom().finite()
    &&& forall|p: u64| #[trigger] book.contains_key(p) ==> book[p].len() > 0
}

/// A side of the book is well formed: finitely many price levels, no empty
/// level, and every resting order sits at its own price, on this side, with
/// something left to trade.
pub open spec fn side_wf(book: Map<u64, Seq<Order>>, side: Side) -> bool {
    &&& book.dom().finite()
    &&& forall|p: u64| #[trigger] book.contains_key(p) ==> book[p].len() > 0
    &&& forall|p: u64, i: int|
        #![trigger book[p][i]]
        book.contains_key(p) && 0 <= i < book[p].len() ==> {
            &&& book[p][i].price == p
            &&& book[p][i].qty > 0
            &&& book[p][i].side == side
        }
}

/// Every bid price is below every ask price.
pub open spec fn uncrossed(bids: Map<u64, Seq<Order>>, asks: Map<u64, Seq<Order>>) -> bool {
    forall|b: u64, a: u64| bids.contains_key(b) && asks.contains_key(a) ==> b < a
}

/// The book side after `o` joins the back of the queue at its price.
pub open spec fn rest_order(book: Map<u64, Seq<Order>>, o: Order) -> Map<u64, Seq<Order>> {
    let queue = if book.contains_key(o.price) {
        book[o.price]
    } else {
        Seq::empty()
    };
    book.insert(o.price, queue.push(o))
}

/// The abstract state of an order book.
pub struct BookView {
    pub bids: Map<u64, Seq<Order>>,
    pub asks: Map<u64, Seq<Order>>,
    /// the id that the next call of `next_id` hands out
    pub next_id: u64,
}

impl BookView {
    /// Both sides have finitely many price levels, none of them empty.
    pub open spec fn shaped(self) -> bool {
        side_shaped(self.bids) && side_shaped(self.asks)
    }

    /// Both sides are well formed and the book is not crossed.
    pub open spec fn wf(self) -> bool {
        &&& side_wf(self.bids, Side::Buy)
        &&& side_wf(self.asks, Side::Sell)
        &&& uncrossed(self.bids, self.asks)
    }

    /// The side on which an order on `side` rests.
    pub open spec fn own_side(self, side: Side) -> Map<u64, Seq<Order>> {
        match side {
            Side::Buy => self.bids,
            Side::Sell => self.asks,
        }
    }

    /// The side that a taker on `side` trades against.
    pub open spec fn opposite_of(self, side: Side) -> Map<u64, Seq<Order>> {
        match side {
            Side::Buy => self.asks,
            Side::Sell => self.bids,
        }
    }
}

/// The book and the fills after `taker` is submitted to `book`: it is
/// matched against the opposite side, and what is left of it, if anything,
/// rests on its own side at its limit price.
pub open spec fn submitted(book: BookView, taker: Order) -> (BookView, Seq<Fill>) {
    let r = match_taker(book.opposite_of(taker.side), taker);
    let left_over = Order { qty: r.left, ..taker };
    match taker.side {
        Side::Buy => {
            let bids = if r.left > 0 {
                rest_order(book.bids, left_over)
            } else {
                book.bids
            };
            (BookView { bids, asks: r.book, next_id: book.next_id }, r.fills)
        },
        Side::Sell => {
            let asks = if r.left > 0 {
                rest_order(book.asks, left_over)
            } else {
                book.asks
            };
            (BookView { bids: r.book, asks, next_id: book.next_id }, r.fills)
        },
    }
}

/// Taking from the first order of a level keeps a side free of empty levels.
pub proof fn lemma_after_fill_shaped(book: Map<u64, Seq<Order>>, p: u64, q: u64)
    requires
        side_shaped(book),
        book.contains_key(p),
    ensures
        side_shaped(after_fill(book, p, q)),
{
}

/// Resting an order keeps a side free of empty levels.
pub proof fn lemma_rest_order_shaped(book: Map<u64, Seq<Order>>, o: Order)
    requires
        side_shaped(book),
    ensures
        side_shaped(rest_order(book, o)),
{
}

/// Taking at most the first order's quantity from a level keeps the side well formed.
pub proof fn lemma_after_fill_wf(book: Map<u64, Seq<Order>>, side: Side, p: u64, q: u64)
    requires
        side_wf(book, side),
        book.contains_key(p),
        q <= book[p][0].qty,
    ensures
        side_wf(after_fill(book, p, q), side),
        after_fill(book, p, q).dom().subset_of(book.dom()),
        forall|k: u64| #[trigger]
            after_fill(book, p, q).contains_key(k) && k != p ==> after_fill(book, p, q)[k]
                == book[k],
{
    let r = after_fill(book, p, q);
    let level = book[p];
    assert(level.len() > 0);
    assert(level[0].price == p);
    assert forall|k: u64, i: int| r.contains_key(k) && 0 <= i < r[k].len() implies {
        &&& #[trigger] r[k][i].price == k
        &&& r[k][i].qty > 0
        &&& r[k][i].side == side
    } by {
        if k == p {
            if level[0].qty - q == 0 {
                assert(r[k][i] == level[i + 1]);
            } else if i > 0 {
                assert(r[k][i] == level[i]);
            }
        }
    }
}

/// The total quantity of a sequence of fills.
pub open spec fn filled_qty(fills: Seq<Fill>) -> int
    decreases fills.len(),
{
    if fills.len() == 0 {
        0
    } else {
        fills[0].qty + filled_qty(fills.drop_first())
    }
}

/// Fill prices run from the best price to worse ones: never falling for a
/// buyer, never rising for a seller.
pub open spec fn in_price_priority(taker_side: Side, fills: Seq<Fill>) -> bool {
    forall|i: int, j: int|
        #![trigger fills[i], fills[j]]
        0 <= i < j < fills.len() ==> match taker_side {
            Side::Buy => fills[i].price <= fills[j].price,
            Side::Sell => fills[j].price <= fills[i].price,
        }
}

/// What matching guarantees about its outcome, proved by following the
/// matching loop one execution at a time.
pub proof fn lemma_match_facts(book: Map<u64, Seq<Order>>, taker: Order)
    requires
        side_wf(book, opposite(taker.side)),
    ensures
        ({
            let r = match_taker(book, taker);
            &&& side_wf(r.book, opposite(taker.side))
            &&& r.book.dom().subset_of(book.dom())
            &&& filled_qty(r.fills) + r.left == taker.qty
            &&& r.left > 0 ==> forall|p: u64| #[trigger] r.book.contains_key(p) ==> !crosses(taker, p)
            &&& forall|i: int| #![trigger r.fills[i]] 0 <= i < r.fills.len() ==> {
                &&& r.fills[i].taker_order_id == taker.id
                &&& book.contains_key(r.fills[i].price)
                &&& crosses(taker, r.fills[i].price)
                &&& (taker.qty > 0 ==> r.fills[i].qty > 0)
            }
            &&& in_price_priority(taker.side, r.fills)
            &&& r.fills.len() > 0 ==> {
                &&& book.dom().len() > 0
                &&& r.fills[0].price == best_price(taker.side, book.dom())
                &&& r.fills[0].maker_order_id == book[r.fills[0].price][0].id
            }
        }),
    decreases book.dom().len(), book[best_price(taker.side, book.dom())].len(),
{
    let r = match_taker(book, taker);
    let p = best_price(taker.side, book.dom());
    if book.dom().len() == 0 {
        assert(r.book.dom().len() == 0);
    } else {
        lemma_best_price(taker.side, book.dom());
        if !crosses(taker, p) {
            assert forall|k: u64| #[trigger] r.book.contains_key(k) implies !crosses(taker, k) by {
                assert(book.contains_key(k));
            }
        } else {
            assert(book[p].len() > 0);
            let maker = book[p][0];
            assert(maker.price == p);
            let q = fill_qty(taker.qty, maker.qty);
            let fill = Fill {
                maker_order_id: maker.id,
                taker_order_id: taker.id,
                price: maker.price,
                qty: q,
            };
            let rest = after_fill(book, p, q);
            lemma_after_fill_wf(book, opposite(taker.side), p, q);
            if taker.qty - q == 0 {
                assert(seq![fill].drop_first() =~= Seq::<Fill>::empty());
                assert(filled_qty(r.fills) == q + filled_qty(Seq::<Fill>::empty()));
            } else {
                if book[p].len() > 1 {
                    assert(rest.dom() =~= book.dom());
                }
                let t2 = Order { qty: (taker.qty - q) as u64, ..taker };
                lemma_match_facts(rest, t2);
                let r2 = match_taker(rest, t2);
                assert(r.fills == seq![fill] + r2.fills);
                assert(r.fills.drop_first() =~= r2.fills);
                assert(filled_qty(r.fills) == q + filled_qty(r2.fills));
                assert forall|i: int| #![trigger r.fills[i]] 0 <= i < r.fills.len() implies {
                    &&& r.fills[i].taker_order_id == taker.id
                    &&& book.contains_key(r.fills[i].price)
                    &&& crosses(taker, r.fills[i].price)
                    &&& (taker.qty > 0 ==> r.fills[i].qty > 0)
                } by {
                    if i > 0 {
                        assert(r.fills[i] == r2.fills[i - 1]);
                    }
                }
                assert forall|i: int, j: int|
                    #![trigger r.fills[i], r.fills[j]]
                    0 <= i < j < r.fills.len() implies match taker.side {
                        Side::Buy => r.fills[i].price <= r.fills[j].price,
                        Side::Sell => r.fills[j].price <= r.fills[i].price,
                    } by {
                    assert(r.fills[j] == r2.fills[j - 1]);
                    if i > 0 {
                        assert(r.fills[i] == r2.fills[i - 1]);
                    } else {
                        assert(rest.contains_key(r2.fills[j - 1].price));
                    }
                }
            }
        }
    }
}

/// Submitting an order to a well-formed book leaves it well formed and not crossed.
pub proof fn lemma_submitted_wf(book: BookView, taker: Order)
    requires
        book.wf(),
    ensures
        submitted(book, taker).0.wf(),
{
    let r = match_taker(book.opposite_of(taker.side), taker);
    lemma_match_facts(book.opposite_of(taker.side), taker);
    let after = submitted(book, taker).0;
    let o = Order { qty: r.left, ..taker };
    match taker.side {
        Side::Buy => {
            if r.left > 0 {
                lemma_rest_order_wf(book.bids, o, Side::Buy);
                assert forall|b: u64, a: u64|
                    after.bids.contains_key(b) && after.asks.contains_key(a) implies b < a by {
                    assert(book.asks.contains_key(a));
                    assert(!crosses(taker, a));
                }
            }
            assert(uncrossed(after.bids, after.asks));
        },
        Side::Sell => {
            if r.left > 0 {
                lemma_rest_order_wf(book.asks, o, Side::Sell);
                assert forall|b: u64, a: u64|
                    after.bids.contains_key(b) && after.asks.contains_key(a) implies b < a by {
                    assert(book.bids.contains_key(b));
                    assert(!crosses(taker, b));
                }
            }
            assert(uncrossed(after.bids, after.asks));
        },
    }
}

/// Resting an order with something to trade, on its own side, keeps that side well formed.
pub proof fn lemma_rest_order_wf(book: Map<u64, Seq<Order>>, o: Order, side: Side)
    requires
        side_wf(book, side),
        o.side == side,
        o.qty > 0,
    ensures
        side_wf(rest_order(book, o), side),
        rest_order(book, o).dom() == book.dom().insert(o.price),
{
    let r = rest_order(book, o);
    assert(r.dom() =~= book.dom().insert(o.price));
    assert forall|k: u64, i: int| r.contains_key(k) && 0 <= i < r[k].len() implies {
        &&& #[trigger] r[k][i].price == k
        &&& r[k][i].qty > 0
        &&& r[k][i].side == side
    } by {
        if k == o.price && book.contains_key(k) && i < book[k].len() {
            assert(r[k][i] == book[k][i]);
        }
    }
}

/// The total quantity resting in a queue.
pub open spec fn resting_qty(queue: Seq<Order>) -> int
    decreases queue.len(),
{
    if queue.len() == 0 {
        0
    } else {
        resting_qty(queue.drop_last()) + queue.last().qty
    }
}

/// Every price level's total quantity fits in a `u64`.
pub open spec fn totals_fit(book: Map<u64, Seq<Order>>) -> bool {
    forall|p: u64| #[trigger] book.contains_key(p) ==> resting_qty(book[p]) <= u64::MAX
}

/// `depth` lists each price level of `book` exactly once with its total
/// resting quantity, best price first for that side: highest first for
/// bids, lowest first for asks.
pub open spec fn is_depth(depth: Seq<PriceLevel>, book: Map<u64, Seq<Order>>, side: Side) -> bool {
    &&& depth.len() == book.dom().len()
    &&& forall|i: int| #![trigger depth[i]] 0 <= i < depth.len() ==> {
        &&& book.contains_key(depth[i].price)
        &&& depth[i].qty == resting_qty(book[depth[i].price])
    }
    &&& forall|p: u64| #[trigger] book.contains_key(p) ==> exists|i: int|
        0 <= i < depth.len() && #[trigger] depth[i].price == p
    &&& forall|i: int, j: int|
        #![trigger depth[i], depth[j]]
        0 <= i < j < depth.len() ==> match side {
            Side::Buy => depth[j].price < depth[i].price,
            Side::Sell => depth[i].price < depth[j].price,
        }
}

/// A prefix of a queue holds no more than the whole queue.
pub proof fn lemma_prefix_qty(queue: Seq<Order>, k: int)
    requires
        0 <= k <= queue.len(),
    ensures
        resting_qty(queue.take(k)) <= resting_qty(queue),
    decreases queue.len(),
{
    if k < queue.len() {
        lemma_prefix_qty(queue.drop_last(), k);
        assert(queue.drop_last().take(k) =~= queue.take(k));
    } else {
        assert(queue.take(k) =~= queue);
    }
}

/// Every resting order carries an id below `bound`.
pub open spec fn ids_below(book: Map<u64, Seq<Order>>, bound: u64) -> bool {
    forall|p: u64, i: int|
        #![trigger book[p][i]]
        book.contains_key(p) && 0 <= i < book[p].len() ==> book[p][i].id < bound
}

/// Resting an order whose id is below `bound` keeps every id below `bound`.
pub proof fn lemma_rest_ids_below(book: Map<u64, Seq<Order>>, o: Order, bound: u64)
    requires
        ids_below(book, bound),
        o.id < bound,
    ensures
        ids_below(rest_order(book, o), bound),
{
    let r = rest_order(book, o);
    assert forall|k: u64, i: int| r.contains_key(k) && 0 <= i < r[k].len() implies #[trigger] r[k][i].id < bound by {
        if k == o.price && book.contains_key(k) && i < book[k].len() {
            assert(r[k][i] == book[k][i]);
        }
    }
}

/// Matching brings in no order id that was not resting before.
pub proof fn lemma_ids_below(book: Map<u64, Seq<Order>>, taker: Order, bound: u64)
    requires
        side_wf(book, opposite(taker.side)),
        ids_below(book, bound),
    ensures
        ids_below(match_taker(book, taker).book, bound),
    decreases book.dom().len(), book[best_price(taker.side, book.dom())].len(),
{
    let p = best_price(taker.side, book.dom());
    if book.dom().len() > 0 {
        lemma_best_price(taker.side, book.dom());
        if crosses(taker, p) {
            let maker = book[p][0];
            let q = fill_qty(taker.qty, maker.qty);
            let rest = after_fill(book, p, q);
            lemma_after_fill_wf(book, opposite(taker.side), p, q);
            assert forall|k: u64, i: int| rest.contains_key(k) && 0 <= i < rest[k].len() implies #[trigger] rest[k][i].id < bound by {
                if k == p {
                    if maker.qty - q == 0 {
                        assert(rest[k][i] == book[k][i + 1]);
                    } else if i > 0 {
                        assert(rest[k][i] == book[k][i]);
                    }
                }
            }
            if taker.qty - q != 0 {
                if book[p].len() > 1 {
                    assert(rest.dom() =~= book.dom());
                }
                lemma_ids_below(rest, Order { qty: (taker.qty - q) as u64, ..taker }, bound);
            }
        }
    }
}

/// The total quantity resting on one side of the book.
pub open spec fn side_qty(book: Map<u64, Seq<Order>>) -> int
    decreases book.dom().len(),
    when book.dom().finite()
{
    if book.dom().len() == 0 {
        0
    } else {
        let p = book.dom().choose();
        resting_qty(book[p]) + side_qty(book.remove(p))
    }
}

/// A side's total splits into any one level plus the rest.
pub proof fn lemma_side_qty_remove(book: Map<u64, Seq<Order>>, p: u64)
    requires
        book.dom().finite(),
        book.contains_key(p),
    ensures
        side_qty(book) == resting_qty(book[p]) + side_qty(book.remove(p)),
    decreases book.dom().len(),
{
    let c = book.dom().choose();
    if c != p {
        lemma_side_qty_remove(book.remove(c), p);
        lemma_side_qty_remove(book.remove(p), c);
        assert(book.remove(c).remove(p) =~= book.remove(p).remove(c));
    } else {
        assert(book.remove(c) =~= book.remove(p));
    }
}

/// A queue's total is its head's quantity plus the rest.
pub proof fn lemma_resting_qty_head(queue: Seq<Order>)
    requires
        queue.len() > 0,
    ensures
        resting_qty(queue) == queue[0].qty + resting_qty(queue.drop_first()),
    decreases queue.len(),
{
    if queue.len() > 1 {
        lemma_resting_qty_head(queue.drop_last());
        assert(queue.drop_last().drop_first() =~= queue.drop_first().drop_last());
        assert(queue.drop_first().last() == queue.last());
        assert(resting_qty(queue.drop_first()) == resting_qty(queue.drop_first().drop_last())
            + queue.drop_first().last().qty);
    } else {
        assert(queue.drop_first().len() == 0);
        assert(queue.drop_last().len() == 0);
        assert(resting_qty(queue.drop_first()) == 0);
        assert(resting_qty(queue.drop_last()) == 0);
    }
}

/// Taking `q` from the first order at `p` takes exactly `q` from the side.
pub proof fn lemma_after_fill_qty(book: Map<u64, Seq<Order>>, side: Side, p: u64, q: u64)
    requires
        side_wf(book, side),
        book.contains_key(p),
        q <= book[p][0].qty,
    ensures
        side_qty(after_fill(book, p, q)) == side_qty(book) - q,
{
    let level = book[p];
    let maker = level[0];
    lemma_side_qty_remove(book, p);
    lemma_resting_qty_head(level);
    let level2 = if maker.qty - q == 0 {
        level.drop_first()
    } else {
        level.update(0, Order { qty: (maker.qty - q) as u64, ..maker })
    };
    if maker.qty - q != 0 {
        lemma_resting_qty_head(level2);
        assert(level2.drop_first() =~= level.drop_first());
    }
    if level2.len() != 0 {
        let b2 = book.insert(p, level2);
        lemma_side_qty_remove(b2, p);
        assert(b2.remove(p) =~= book.remove(p));
    } else {
        assert(level2.len() == 0);
    }
}

/// Matching takes from the opposite side exactly the quantity it fills.
pub proof fn lemma_match_qty(book: Map<u64, Seq<Order>>, taker: Order)
    requires
        side_wf(book, opposite(taker.side)),
    ensures
        side_qty(match_taker(book, taker).book) + filled_qty(match_taker(book, taker).fills) == side_qty(book),
    decreases book.dom().len(), book[best_price(taker.side, book.dom())].len(),
{
    let r = match_taker(book, taker);
    let p = best_price(taker.side, book.dom());
    if book.dom().len() > 0 {
        lemma_best_price(taker.side, book.dom());
        if crosses(taker, p) {
            let maker = book[p][0];
            let q = fill_qty(taker.qty, maker.qty);
            let fill = Fill {
                maker_order_id: maker.id,
                taker_order_id: taker.id,
                price: maker.price,
                qty: q,
            };
            let rest = after_fill(book, p, q);
            lemma_after_fill_wf(book, opposite(taker.side), p, q);
            lemma_after_fill_qty(book, opposite(taker.side), p, q);
            if taker.qty - q == 0 {
                assert(seq![fill].drop_first() =~= Seq::<Fill>::empty());
                assert(filled_qty(r.fills) == q + filled_qty(Seq::<Fill>::empty()));
            } else {
                if book[p].len() > 1 {
                    assert(rest.dom() =~= book.dom());
                }
                let t2 = Order { qty: (taker.qty - q) as u64, ..taker };
                lemma_match_qty(rest, t2);
                let r2 = match_taker(rest, t2);
                assert(r.fills.drop_first() =~= r2.fills);
                assert(filled_qty(r.fills) == q + filled_qty(r2.fills));
            }
        }
    }
}

/// Resting an order adds exactly its quantity to its side.
pub proof fn lemma_rest_order_qty(book: Map<u64, Seq<Order>>, o: Order)
    requires
        book.dom().finite(),
    ensures
        side_qty(rest_order(book, o)) == side_qty(book) + o.qty,
{
    let r = rest_order(book, o);
    let queue = if book.contains_key(o.price) {
        book[o.price]
    } else {
        Seq::empty()
    };
    lemma_side_qty_remove(r, o.price);
    assert(r.remove(o.price) =~= book.remove(o.price));
    assert(queue.push(o).drop_last() =~= queue);
    assert(resting_qty(queue.push(o)) == resting_qty(queue) + o.qty);
    if book.contains_key(o.price) {
        lemma_side_qty_remove(book, o.price);
    } else {
        assert(book.remove(o.price) =~= book);
        assert(resting_qty(queue) == 0);
    }
}

/// The total quantity listed in a depth.
pub open spec fn depth_qty(depth: Seq<PriceLevel>) -> int
    decreases depth.len(),
{
    if depth.len() == 0 {
        0
    } else {
        depth[0].qty + depth_qty(depth.drop_first())
    }
}

/// A depth listing of a side adds up to the side's total resting quantity.
pub proof fn lemma_depth_qty(depth: Seq<PriceLevel>, book: Map<u64, Seq<Order>>, side: Side)
    requires
        book.dom().finite(),
        is_depth(depth, book, side),
    ensures
        depth_qty(depth) == side_qty(book),
    decreases depth.len(),
{
    if depth.len() > 0 {
        let p0 = depth[0].price;
        let rest = depth.drop_first();
        let b2 = book.remove(p0);
        lemma_side_qty_remove(book, p0);
        assert forall|i: int| #![trigger rest[i]] 0 <= i < rest.len() implies {
            &&& b2.contains_key(rest[i].price)
            &&& rest[i].qty == resting_qty(b2[rest[i].price])
        } by {
            assert(rest[i] == depth[i + 1]);
        }
        assert forall|p: u64| #[trigger] b2.contains_key(p) implies exists|i: int|
            0 <= i < rest.len() && #[trigger] rest[i].price == p by {
            assert(book.contains_key(p));
            let j = choose|j: int| 0 <= j < depth.len() && #[trigger] depth[j].price == p;
            assert(j != 0);
            assert(rest[j - 1] == depth[j]);
        }
        assert forall|i: int, j: int|
            #![trigger rest[i], rest[j]]
            0 <= i < j < rest.len() implies match side {
                Side::Buy => rest[j].price < rest[i].price,
                Side::Sell => rest[i].price < rest[j].price,
            } by {
            assert(rest[i] == depth[i + 1]);
            assert(rest[j] == depth[j + 1]);
        }
        lemma_depth_qty(rest, b2, side);
    } else {
        assert(book.dom().len() == 0);
        assert(side_qty(book) == 0);
    }
}

/// `after` is `before` with some orders taken off its front and the new
/// front order possibly reduced in quantity; nothing else changes and no
/// order changes place.
pub open spec fn trimmed_from_front(before: Seq<Order>, after: Seq<Order>) -> bool {
    let k = before.len() - after.len();
    &&& 0 < after.len() <= before.len()
    &&& after.drop_first() == before.skip(k + 1)
    &&& after[0] == (Order { qty: after[0].qty, ..before[k] })
    &&& after[0].qty <= before[k].qty
}

/// A non-empty queue is trimmed from its own front by nothing.
pub proof fn lemma_trimmed_refl(s: Seq<Order>)
    requires
        s.len() > 0,
    ensures
        trimmed_from_front(s, s),
{
    assert(s.drop_first() =~= s.skip(1));
}

/// Trimming twice is trimming.
pub proof fn lemma_trimmed_trans(a: Seq<Order>, b: Seq<Order>, c: Seq<Order>)
    requires
        trimmed_from_front(a, b),
        trimmed_from_front(b, c),
    ensures
        trimmed_from_front(a, c),
{
    let k1 = a.len() - b.len();
    let k2 = b.len() - c.len();
    if k2 > 0 {
        assert(b[k2] == b.drop_first()[k2 - 1]);
        assert(b.drop_first()[k2 - 1] == a.skip(k1 + 1)[k2 - 1]);
        assert(c.drop_first() =~= a.skip(k1 + k2 + 1)) by {
            assert forall|i: int| 0 <= i < c.drop_first().len() implies c.drop_first()[i] == a.skip(k1 + k2 + 1)[i] by {
                assert(c.drop_first()[i] == b.skip(k2 + 1)[i]);
                assert(b.skip(k2 + 1)[i] == b.drop_first()[k2 + i]);
                assert(b.drop_first()[k2 + i] == a.skip(k1 + 1)[k2 + i]);
            }
        }
    } else {
        assert(c.drop_first() =~= a.skip(k1 + 1));
    }
}

/// Taking from the first order at `p` trims that level from its front and
/// leaves every other level as it was.
pub proof fn lemma_after_fill_trimmed(book: Map<u64, Seq<Order>>, p: u64, q: u64)
    requires
        side_shaped(book),
        book.contains_key(p),
        q <= book[p][0].qty,
    ensures
        forall|k: u64| #[trigger] after_fill(book, p, q).contains_key(k) ==> book.contains_key(k)
            && trimmed_from_front(book[k], after_fill(book, p, q)[k]),
{
    let r = after_fill(book, p, q);
    let level = book[p];
    assert forall|k: u64| #[trigger] r.contains_key(k) implies book.contains_key(k)
        && trimmed_from_front(book[k], r[k]) by {
        if k == p {
            if level[0].qty - q == 0 {
                assert(r[k] == level.drop_first());
                assert(r[k].drop_first() =~= level.skip(2));
            } else {
                assert(r[k].drop_first() =~= level.skip(1));
            }
        } else {
            lemma_trimmed_refl(book[k]);
        }
    }
}

/// Matching only takes orders off the front of a price level and may reduce
/// the quantity of the order then at the front: every level that is left
/// keeps its remaining orders in their original order.
pub proof fn lemma_match_trims(book: Map<u64, Seq<Order>>, taker: Order)
    requires
        side_shaped(book),
    ensures
        forall|k: u64| #[trigger] match_taker(book, taker).book.contains_key(k) ==> book.contains_key(k)
            && trimmed_from_front(book[k], match_taker(book, taker).book[k]),
    decreases book.dom().len(), book[best_price(taker.side, book.dom())].len(),
{
    let r = match_taker(book, taker);
    let p = best_price(taker.side, book.dom());
    if book.dom().len() > 0 {
        lemma_best_price(taker.side, book.dom());
    }
    if book.dom().len() == 0 || !crosses(taker, p) || book[p].len() == 0 {
        assert forall|k: u64| #[trigger] r.book.contains_key(k) implies book.contains_key(k)
            && trimmed_from_front(book[k], r.book[k]) by {
            lemma_trimmed_refl(book[k]);
        }
    } else {
        let maker = book[p][0];
        let q = fill_qty(taker.qty, maker.qty);
        let rest = after_fill(book, p, q);
        lemma_after_fill_trimmed(book, p, q);
        lemma_after_fill_shaped(book, p, q);
        if taker.qty - q != 0 {
            if book[p].len() > 1 {
                assert(rest.dom() =~= book.dom());
            }
            let t2 = Order { qty: (taker.qty - q) as u64, ..taker };
            lemma_match_trims(rest, t2);
            let r2 = match_taker(rest, t2);
            assert(r.book == r2.book);
            assert forall|k: u64| #[trigger] r.book.contains_key(k) implies book.contains_key(k)
                && trimmed_from_front(book[k], r.book[k]) by {
                assert(r2.book.contains_key(k));
                assert(rest.contains_key(k));
                lemma_trimmed_trans(book[k], rest[k], r.book[k]);
            }
        }
    }
}

} // verus!
