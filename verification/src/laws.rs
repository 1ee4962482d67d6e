//! What holds of every submission to a well-formed book.
use vstd::prelude::*;

use crate::model::{
    lemma_match_trims, trimmed_from_front, best_price, depth_qty, filled_qty, is_depth, lemma_depth_qty, lemma_best_price, in_price_priority, lemma_match_facts, lemma_match_qty,
    lemma_rest_order_qty, lemma_submitted_wf, match_taker, side_qty, submitted, BookView,
};
use crate::types::{Fill, Order, PriceLevel, Side};

verus! {

/// Submitting an order to a well-formed book leaves it well formed: no
/// empty price level, every resting order on its own side at its own price
/// with quantity left, and the best bid strictly below the best ask.
pub proof fn law_submit_keeps_book_valid(book: BookView, taker: Order)
    requires
        book.wf(),
    ensures
        submitted(book, taker).0.wf(),
{
    lemma_submitted_wf(book, taker);
}

/// Quantity is conserved: the taker's quantity is split between what is
/// filled and what rests; the opposite side loses exactly the filled
/// quantity and the taker's side gains exactly the unfilled rest.
pub proof fn law_quantity_conserved(book: BookView, taker: Order)
    requires
        book.wf(),
    ensures
        ({
            let (after, fills) = submitted(book, taker);
            let left = match_taker(book.opposite_of(taker.side), taker).left;
            &&& filled_qty(fills) + left == taker.qty
            &&& side_qty(after.opposite_of(taker.side)) == side_qty(book.opposite_of(taker.side))
                - filled_qty(fills)
            &&& side_qty(after.own_side(taker.side)) == side_qty(book.own_side(taker.side)) + left
        }),
{
    let opp = book.opposite_of(taker.side);
    let r = match_taker(opp, taker);
    lemma_match_facts(opp, taker);
    lemma_match_qty(opp, taker);
    if r.left > 0 {
        lemma_rest_order_qty(book.own_side(taker.side), Order { qty: r.left, ..taker });
    }
}

/// Every fill belongs to the taker, is at a price that was resting on the
/// opposite side and that the taker's limit accepts (at or below it for a
/// buy, at or above it for a sell), and trades a positive quantity unless
/// the taker itself had none.
pub proof fn law_fills_respect_limit(book: BookView, taker: Order)
    requires
        book.wf(),
    ensures
        ({
            let fills = submitted(book, taker).1;
            forall|i: int| #![trigger fills[i]] 0 <= i < fills.len() ==> {
                &&& fills[i].taker_order_id == taker.id
                &&& book.opposite_of(taker.side).contains_key(fills[i].price)
                &&& match taker.side {
                    Side::Buy => fills[i].price <= taker.price,
                    Side::Sell => fills[i].price >= taker.price,
                }
                &&& (taker.qty > 0 ==> fills[i].qty > 0)
            }
        }),
{
    lemma_match_facts(book.opposite_of(taker.side), taker);
}

/// Fills come in price-time priority: the first one is at the best
/// opposite price against the oldest order resting there, and later ones
/// are never at a better price than earlier ones.
pub proof fn law_price_time_priority(book: BookView, taker: Order)
    requires
        book.wf(),
    ensures
        ({
            let opp = book.opposite_of(taker.side);
            let fills = submitted(book, taker).1;
            &&& in_price_priority(taker.side, fills)
            &&& fills.len() > 0 ==> {
                &&& fills[0].price == best_price(taker.side, opp.dom())
                &&& fills[0].maker_order_id == opp[fills[0].price][0].id
            }
        }),
{
    lemma_match_facts(book.opposite_of(taker.side), taker);
}

/// After matching, whatever is left of the taker no longer crosses the
/// opposite side: every price still resting there is outside its limit.
pub proof fn law_leftover_does_not_cross(book: BookView, taker: Order)
    requires
        book.wf(),
    ensures
        ({
            let r = match_taker(book.opposite_of(taker.side), taker);
            r.left > 0 ==> forall|p: u64| #[trigger] r.book.contains_key(p) ==> match taker.side {
                Side::Buy => taker.price < p,
                Side::Sell => p < taker.price,
            }
        }),
{
    lemma_match_facts(book.opposite_of(taker.side), taker);
}

/// A depth listing of a side, as `snapshot` returns it, adds up to the
/// total quantity resting on that side.
pub proof fn law_depth_adds_up(depth: Seq<PriceLevel>, book: Map<u64, Seq<Order>>, side: Side)
    requires
        book.dom().finite(),
        is_depth(depth, book, side),
    ensures
        depth_qty(depth) == side_qty(book),
{
    lemma_depth_qty(depth, book, side);
}

/// Time priority within a price level: matching only takes orders off the
/// front of a level and may reduce the quantity of the order then at the
/// front, which keeps its place; every other order keeps its place too.
pub proof fn law_queues_keep_their_order(book: BookView, taker: Order)
    requires
        book.wf(),
    ensures
        ({
            let before = book.opposite_of(taker.side);
            let after = submitted(book, taker).0.opposite_of(taker.side);
            forall|p: u64| #[trigger] after.contains_key(p) ==> before.contains_key(p)
                && trimmed_from_front(before[p], after[p])
        }),
{
    lemma_match_trims(book.opposite_of(taker.side), taker);
}

/// A taker smaller than the oldest order at the best crossing price trades
/// once with that order, which keeps its place at the front of its level
/// with its quantity reduced; nothing else in the book changes.
pub proof fn law_partial_fill_keeps_place(book: BookView, taker: Order)
    requires
        book.wf(),
        book.opposite_of(taker.side).dom().len() > 0,
        ({
            let opp = book.opposite_of(taker.side);
            let p = best_price(taker.side, opp.dom());
            &&& match taker.side {
                Side::Buy => p <= taker.price,
                Side::Sell => taker.price <= p,
            }
            &&& opp.contains_key(p) ==> taker.qty < opp[p][0].qty
        }),
    ensures
        ({
            let opp = book.opposite_of(taker.side);
            let p = best_price(taker.side, opp.dom());
            let head = opp[p][0];
            let (after, fills) = submitted(book, taker);
            &&& fills == seq![
                Fill { maker_order_id: head.id, taker_order_id: taker.id, price: p, qty: taker.qty },
            ]
            &&& after.opposite_of(taker.side)[p][0] == (Order { qty: (head.qty - taker.qty) as u64, ..head })
            &&& after.opposite_of(taker.side)[p].drop_first() == opp[p].drop_first()
            &&& after.opposite_of(taker.side).remove(p) == opp.remove(p)
            &&& after.own_side(taker.side) == book.own_side(taker.side)
            &&& after.next_id == book.next_id
        }),
{
    let opp = book.opposite_of(taker.side);
    lemma_best_price(taker.side, opp.dom());
    let p = best_price(taker.side, opp.dom());
    let head = opp[p][0];
    assert(head.price == p);
    let after = submitted(book, taker).0.opposite_of(taker.side);
    let level2 = opp[p].update(0, Order { qty: (head.qty - taker.qty) as u64, ..head });
    assert(after == opp.insert(p, level2));
    assert(after[p].drop_first() =~= opp[p].drop_first());
    assert(after.remove(p) =~= opp.remove(p));
}

/// Whatever the taker has left after matching joins the back of the queue
/// at its limit price, behind every order already there, with the taker's
/// id and side; every other level of its side is unchanged. A taker that is
/// filled completely leaves its own side unchanged.
pub proof fn law_remainder_rests_at_back(book: BookView, taker: Order)
    requires
        book.wf(),
    ensures
        ({
            let before = book.own_side(taker.side);
            let (after_book, fills) = submitted(book, taker);
            let after = after_book.own_side(taker.side);
            let queue_before = if before.contains_key(taker.price) {
                before[taker.price]
            } else {
                Seq::empty()
            };
            if filled_qty(fills) < taker.qty {
                &&& after.contains_key(taker.price)
                &&& after[taker.price].len() == queue_before.len() + 1
                &&& after[taker.price].last() == (Order {
                    qty: (taker.qty - filled_qty(fills)) as u64,
                    ..taker
                })
                &&& forall|i: int| 0 <= i < queue_before.len() ==> #[trigger] after[taker.price][i]
                    == queue_before[i]
                &&& after.remove(taker.price) == before.remove(taker.price)
            } else {
                after == before
            }
        }),
{
    let opp = book.opposite_of(taker.side);
    lemma_match_facts(opp, taker);
    let r = match_taker(opp, taker);
    let before = book.own_side(taker.side);
    let after = submitted(book, taker).0.own_side(taker.side);
    if r.left > 0 {
        assert(after.remove(taker.price) =~= before.remove(taker.price));
    }
}

} // verus!
