//! The executable order book: bids and asks held in `BTreeMap`s of
//! `VecDeque`s, matched and listed as the model in `model` says.
use std::collections::BTreeMap;
use std::collections::VecDeque;
use vstd::prelude::*;
use vstd::std_specs::btree::{axiom_increasing_seq_meaning, increasing_seq, spec_btree_map_iter};
use vstd::std_specs::cmp::OrdSpec;
use vstd::std_specs::iter::IteratorSpec;

use crate::model::{
    after_fill, best_price, is_best, is_depth, is_highest, is_lowest, lemma_after_fill_shaped,
    lemma_after_fill_wf, lemma_best_price, lemma_prefix_qty, lemma_rest_order_shaped,
    lemma_submitted_wf, levels, match_taker, opposite, rest_order, resting_qty, side_shaped,
    side_wf, submitted, totals_fit, BookView,
};
use crate::types::{Fill, Order, PriceLevel, Side};

verus! {


/// The order book: bids and asks, each a map from price to the FIFO queue of
/// orders resting at that price.
pub struct OrderBook {
    pub bids: BTreeMap<u64, VecDeque<Order>>,
    pub asks: BTreeMap<u64, VecDeque<Order>>,
    next_id: u64,
}

impl View for OrderBook {
    type V = BookView;

    closed spec fn view(&self) -> BookView {
        BookView { bids: levels(self.bids), asks: levels(self.asks), next_id: self.next_id }
    }
}

/// `BTreeMap::first_key_value`, which the standard library documents as the
/// entry with the minimum key (none for an empty map); only the key is kept.
#[verifier::external_body]
fn lowest_key(m: &BTreeMap<u64, VecDeque<Order>>) -> (r: Option<u64>)
    ensures
        match r {
            Some(p) => is_lowest(m@.dom(), p),
            None => m@.dom().len() == 0,
        },
{
    match m.first_key_value() {
        Some((k, _)) => Some(*k),
        None => None,
    }
}

/// `BTreeMap::last_key_value`, which the standard library documents as the
/// entry with the maximum key (none for an empty map); only the key is kept.
#[verifier::external_body]
fn highest_key(m: &BTreeMap<u64, VecDeque<Order>>) -> (r: Option<u64>)
    ensures
        match r {
            Some(p) => is_highest(m@.dom(), p),
            None => m@.dom().len() == 0,
        },
{
    match m.last_key_value() {
        Some((k, _)) => Some(*k),
        None => None,
    }
}

/// The best price resting on `book` for a taker on `taker_side`, if any.
fn best_resting_price(book: &BTreeMap<u64, VecDeque<Order>>, taker_side: Side) -> (r: Option<u64>)
    requires
        levels(*book).dom().finite(),
    ensures
        match r {
            Some(p) => levels(*book).dom().len() > 0 && p == best_price(
                taker_side,
                levels(*book).dom(),
            ),
            None => levels(*book).dom().len() == 0,
        },
{
    assert(levels(*book).dom() =~= book@.dom());
    match taker_side {
        Side::Buy => {
            let r = lowest_key(book);
            proof {
                if let Some(p) = r {
                    assert(is_best(taker_side, book@.dom(), p));
                    lemma_best_price(taker_side, book@.dom());
                }
            }
            r
        },
        Side::Sell => {
            let r = highest_key(book);
            proof {
                if let Some(p) = r {
                    assert(is_best(taker_side, book@.dom(), p));
                    lemma_best_price(taker_side, book@.dom());
                }
            }
            r
        },
    }
}


/// Matches `taker` against the opposite side `book`, appending each fill to
/// `fills`; on return `taker.qty` is what is left unfilled.
fn match_against(book: &mut BTreeMap<u64, VecDeque<Order>>, taker: &mut Order, fills: &mut Vec<Fill>)
    requires
        side_shaped(levels(*old(book))),
    ensures
        side_shaped(levels(*final(book))),
        side_wf(levels(*old(book)), opposite(old(taker).side)) ==> side_wf(
            levels(*final(book)),
            opposite(old(taker).side),
        ),
        ({
            let r = match_taker(levels(*old(book)), *old(taker));
            &&& levels(*final(book)) == r.book
            &&& *final(taker) == Order { qty: r.left, ..*old(taker) }
            &&& final(fills)@ == old(fills)@ + r.fills
        }),
{
    let ghost book0 = levels(*book);
    let ghost taker0 = *taker;
    let ghost fills0 = fills@;
    let ghost r0 = match_taker(book0, taker0);
    loop
        invariant_except_break
            side_shaped(levels(*book)),
            side_wf(book0, opposite(taker0.side)) ==> side_wf(levels(*book), opposite(taker0.side)),
            *taker == (Order { qty: taker.qty, ..taker0 }),
            match_taker(levels(*book), *taker).book == r0.book,
            match_taker(levels(*book), *taker).left == r0.left,
            fills@ + match_taker(levels(*book), *taker).fills == fills0 + r0.fills,
        ensures
            side_shaped(levels(*book)),
            side_wf(book0, opposite(taker0.side)) ==> side_wf(levels(*book), opposite(taker0.side)),
            levels(*book) == r0.book,
            *taker == (Order { qty: r0.left, ..taker0 }),
            fills@ == fills0 + r0.fills,
        decreases
            levels(*book).dom().len(),
            levels(*book)[best_price(taker0.side, levels(*book).dom())].len(),
    {
        let ghost pre = levels(*book);
        let best = best_resting_price(book, taker.side);
        let p = match best {
            Some(p) => p,
            None => {
                break;
            },
        };
        let crossing = match taker.side {
            Side::Buy => p <= taker.price,
            Side::Sell => taker.price <= p,
        };
        if !crossing {
            break;
        }
        proof {
            lemma_best_price(taker0.side, pre.dom());
            assert(pre.contains_key(p));
            assert(pre[p].len() > 0);
        }
        let mut level = book.remove(&p).unwrap();
        assert(level@ == pre[p]);
        let mut maker = level.pop_front().unwrap();
        let q: u64 = if taker.qty < maker.qty {
            taker.qty
        } else {
            maker.qty
        };
        fills.push(
            Fill { maker_order_id: maker.id, taker_order_id: taker.id, price: maker.price, qty: q },
        );
        maker.qty = maker.qty - q;
        taker.qty = taker.qty - q;
        if maker.qty > 0 {
            level.push_front(maker);
        }
        if level.len() > 0 {
            book.insert(p, level);
        }
        proof {
            let level2 = if pre[p][0].qty - q == 0 {
                pre[p].drop_first()
            } else {
                pre[p].update(0, Order { qty: (pre[p][0].qty - q) as u64, ..pre[p][0] })
            };
            assert(level@ =~= level2);
            assert(levels(*book) =~= after_fill(pre, p, q));
            lemma_after_fill_shaped(pre, p, q);
            if side_wf(book0, opposite(taker0.side)) {
                lemma_after_fill_wf(pre, opposite(taker0.side), p, q);
            }
            let rest = after_fill(pre, p, q);
            if taker.qty > 0 && pre[p].len() > 1 {
                assert(rest.dom() =~= pre.dom());
            }
        }
        if taker.qty == 0 {
            break;
        }
    }
}

/// Puts `o` at the back of the queue at its price.
fn rest_on(book: &mut BTreeMap<u64, VecDeque<Order>>, o: Order)
    ensures
        levels(*final(book)) == rest_order(levels(*old(book)), o),
{
    let ghost pre = levels(*book);
    let mut queue = match book.remove(&o.price) {
        Some(queue) => queue,
        None => VecDeque::new(),
    };
    queue.push_back(o);
    book.insert(o.price, queue);
    assert(levels(*book) =~= rest_order(pre, o));
}

/// The total quantity resting in `queue`.
fn queue_total(queue: &VecDeque<Order>) -> (t: u64)
    requires
        resting_qty(queue@) <= u64::MAX,
    ensures
        t == resting_qty(queue@),
{
    let mut t: u64 = 0;
    let mut i: usize = 0;
    while i < queue.len()
        invariant
            i <= queue@.len(),
            t == resting_qty(queue@.take(i as int)),
            resting_qty(queue@) <= u64::MAX,
        decreases queue@.len() - i,
    {
        proof {
            lemma_prefix_qty(queue@, i + 1);
            assert(queue@.take(i + 1).drop_last() =~= queue@.take(i as int));
        }
        t = t + queue[i].qty;
        i = i + 1;
    }
    assert(queue@.take(i as int) =~= queue@);
    t
}

/// The keys that a `BTreeMap` yields in order are strictly increasing.
proof fn lemma_increasing_keys(ks: Seq<u64>)
    requires
        increasing_seq(ks),
    ensures
        forall|i: int, j: int| 0 <= i < j < ks.len() ==> ks[i] < ks[j],
{
    axiom_increasing_seq_meaning(ks);
    assert forall|i: int, j: int| 0 <= i < j < ks.len() implies ks[i] < ks[j] by {
        assert(ks[i].cmp_spec(&ks[j]) is Less);
    }
}

/// The price levels of `book`, lowest price first.
fn depth_ascending(book: &BTreeMap<u64, VecDeque<Order>>) -> (depth: Vec<PriceLevel>)
    requires
        totals_fit(levels(*book)),
    ensures
        is_depth(depth@, levels(*book), Side::Sell),
{
    let mut depth: Vec<PriceLevel> = Vec::new();
    for (price, queue) in it: book.iter()
        invariant
            totals_fit(levels(*book)),
            it.seq() == spec_btree_map_iter(book).remaining(),
            increasing_seq(it.seq().map_values(|kv: (&u64, &VecDeque<Order>)| *kv.0)),
            depth@.len() == it.index(),
            forall|i: int| #![trigger depth@[i]] 0 <= i < it.index() ==> {
                &&& depth@[i].price == *it.seq()[i].0
                &&& depth@[i].qty == resting_qty(it.seq()[i].1@)
            },
    {
        proof {
            let v = spec_btree_map_iter(book).remaining();
            assert(book@.contains_key(*v[it.index() as int].0));
            assert(levels(*book).contains_key(*price));
            assert(levels(*book)[*price] == queue@);
        }
        let t = queue_total(queue);
        depth.push(PriceLevel { price: *price, qty: t });
    }
    proof {
        let v = spec_btree_map_iter(book).remaining();
        let m = levels(*book);
        assert(m.dom() =~= book@.dom());
        assert(depth@.len() == v.len());
        assert forall|i: int| #![trigger depth@[i]] 0 <= i < depth@.len() implies {
            &&& m.contains_key(depth@[i].price)
            &&& depth@[i].qty == resting_qty(m[depth@[i].price])
        } by {
            assert(book@.contains_key(*v[i].0));
        }
        assert forall|p: u64| #[trigger] m.contains_key(p) implies exists|i: int|
            0 <= i < depth@.len() && #[trigger] depth@[i].price == p by {
            assert(book@.contains_key(p));
            assert(v.contains((&p, &book@[p])));
            let i = choose|i: int| 0 <= i < v.len() && v[i] == (&p, &book@[p]);
            assert(depth@[i].price == p);
        }
        let ks = v.map_values(|kv: (&u64, &VecDeque<Order>)| *kv.0);
        assert forall|i: int, j: int|
            #![trigger depth@[i], depth@[j]]
            0 <= i < j < depth@.len() implies depth@[i].price < depth@[j].price by {
            lemma_increasing_keys(ks);
            assert(ks[i] == depth@[i].price);
            assert(ks[j] == depth@[j].price);
        }
    }
    depth
}

/// Whether the total quantity resting in `queue` fits in a `u64`.
fn queue_fits(queue: &VecDeque<Order>) -> (ok: bool)
    ensures
        ok == (resting_qty(queue@) <= u64::MAX),
{
    let mut t: u64 = 0;
    let mut i: usize = 0;
    while i < queue.len()
        invariant
            i <= queue@.len(),
            t == resting_qty(queue@.take(i as int)),
        decreases queue@.len() - i,
    {
        proof {
            lemma_prefix_qty(queue@, i + 1);
            assert(queue@.take(i + 1).drop_last() =~= queue@.take(i as int));
        }
        match t.checked_add(queue[i].qty) {
            Some(n) => {
                t = n;
            },
            None => {
                return false;
            },
        }
        i = i + 1;
    }
    assert(queue@.take(i as int) =~= queue@);
    true
}

/// Whether every price level of `book` has a total quantity that fits in a `u64`.
fn side_fits(book: &BTreeMap<u64, VecDeque<Order>>) -> (ok: bool)
    ensures
        ok == totals_fit(levels(*book)),
{
    let ghost v = spec_btree_map_iter(book).remaining();
    for (price, queue) in it: book.iter()
        invariant
            it.seq() == v,
            v == spec_btree_map_iter(book).remaining(),
            forall|i: int| #![trigger v[i]] 0 <= i < it.index() ==> resting_qty(v[i].1@) <= u64::MAX,
    {
        if !queue_fits(queue) {
            proof {
                let v = spec_btree_map_iter(book).remaining();
                assert(book@.contains_key(*v[it.index() as int].0));
                assert(levels(*book).contains_key(*price));
            }
            return false;
        }
    }
    proof {
        assert forall|p: u64| #[trigger] levels(*book).contains_key(p) implies resting_qty(levels(*book)[p]) <= u64::MAX by {
            assert(book@.contains_key(p));
            assert(v.contains((&p, &book@[p])));
            let i = choose|i: int| 0 <= i < v.len() && v[i] == (&p, &book@[p]);
            assert(resting_qty(v[i].1@) <= u64::MAX);
        }
    }
    true
}

/// `depth` in reverse order.
fn reversed(depth: &Vec<PriceLevel>) -> (r: Vec<PriceLevel>)
    ensures
        r@.len() == depth@.len(),
        forall|i: int| #![trigger r@[i]] 0 <= i < r@.len() ==> r@[i] == depth@[depth@.len() - 1 - i],
{
    let mut r: Vec<PriceLevel> = Vec::new();
    let mut k: usize = depth.len();
    while k > 0
        invariant
            k <= depth@.len(),
            r@.len() == depth@.len() - k,
            forall|i: int| #![trigger r@[i]] 0 <= i < r@.len() ==> r@[i] == depth@[depth@.len() - 1 - i],
        decreases k,
    {
        k = k - 1;
        r.push(depth[k]);
    }
    r
}

/// Listing ascending depth in reverse gives the depth of a bid side.
proof fn lemma_reversed_depth(up: Seq<PriceLevel>, down: Seq<PriceLevel>, book: Map<u64, Seq<Order>>)
    requires
        is_depth(up, book, Side::Sell),
        down.len() == up.len(),
        forall|i: int| #![trigger down[i]] 0 <= i < down.len() ==> down[i] == up[up.len() - 1 - i],
    ensures
        is_depth(down, book, Side::Buy),
{
    assert forall|i: int| #![trigger down[i]] 0 <= i < down.len() implies {
        &&& book.contains_key(down[i].price)
        &&& down[i].qty == resting_qty(book[down[i].price])
    } by {
        assert(up[up.len() - 1 - i] == down[i]);
    }
    assert forall|p: u64| #[trigger] book.contains_key(p) implies exists|i: int|
        0 <= i < down.len() && #[trigger] down[i].price == p by {
        let j = choose|j: int| 0 <= j < up.len() && #[trigger] up[j].price == p;
        assert(down[up.len() - 1 - j] == up[j]);
    }
    assert forall|i: int, j: int|
        #![trigger down[i], down[j]]
        0 <= i < j < down.len() implies down[j].price < down[i].price by {
        assert(down[i] == up[up.len() - 1 - i]);
        assert(down[j] == up[up.len() - 1 - j]);
    }
}

impl OrderBook {
    /// An empty book whose first order id is 1.
    pub fn new() -> (book: Self)
        ensures
            book@.bids == Map::<u64, Seq<Order>>::empty(),
            book@.asks == Map::<u64, Seq<Order>>::empty(),
            book@.next_id == 1,
            book@.wf(),
    {
        let book = OrderBook { bids: BTreeMap::new(), asks: BTreeMap::new(), next_id: 1 };
        assert(book@.bids =~= Map::<u64, Seq<Order>>::empty());
        assert(book@.asks =~= Map::<u64, Seq<Order>>::empty());
        book
    }

    /// Hands out the next order id; ids count up from 1.
    pub fn next_id(&mut self) -> (id: u64)
        requires
            old(self)@.next_id < u64::MAX,
        ensures
            id == old(self)@.next_id,
            final(self)@ == (BookView { next_id: (id + 1) as u64, ..old(self)@ }),
    {
        let id: u64 = self.next_id;
        self.next_id = self.next_id + 1;
        id
    }

    /// Inserts a taker order, runs the matching loop, and returns every
    /// fill produced, in the order they happened.
    pub fn submit(&mut self, taker: Order) -> (fills: Vec<Fill>)
        requires
            old(self)@.shaped(),
        ensures
            final(self)@.shaped(),
            old(self)@.wf() ==> final(self)@.wf(),
            final(self)@ == submitted(old(self)@, taker).0,
            fills@ == submitted(old(self)@, taker).1,
    {
        let ghost order = taker;
        let mut taker = taker;
        let mut fills = Vec::new();
        match taker.side {
            Side::Buy => {
                match_against(&mut self.asks, &mut taker, &mut fills);
                if taker.qty > 0 {
                    proof {
                        lemma_rest_order_shaped(levels(self.bids), taker);
                    }
                    rest_on(&mut self.bids, taker);
                }
            },
            Side::Sell => {
                match_against(&mut self.bids, &mut taker, &mut fills);
                if taker.qty > 0 {
                    proof {
                        lemma_rest_order_shaped(levels(self.asks), taker);
                    }
                    rest_on(&mut self.asks, taker);
                }
            },
        }
        proof {
            if old(self)@.wf() {
                lemma_submitted_wf(old(self)@, order);
            }
        }
        assert(fills@ =~= Seq::<Fill>::empty() + match_taker(old(self)@.opposite_of(order.side), order).fills);
        fills
    }

    /// Both sides as price levels with their total resting quantity: bids
    /// highest price first, asks lowest price first.
    pub fn snapshot(&self) -> (r: (Vec<PriceLevel>, Vec<PriceLevel>))
        requires
            totals_fit(self@.bids),
            totals_fit(self@.asks),
        ensures
            is_depth(r.0@, self@.bids, Side::Buy),
            is_depth(r.1@, self@.asks, Side::Sell),
    {
        let up = depth_ascending(&self.bids);
        let bids = reversed(&up);
        proof {
            lemma_reversed_depth(up@, bids@, self@.bids);
        }
        let asks = depth_ascending(&self.asks);
        (bids, asks)
    }

    /// Whether every price level on both sides has a total quantity that
    /// fits in a `u64`, which `snapshot` needs.
    pub fn depth_fits(&self) -> (ok: bool)
        ensures
            ok == (totals_fit(self@.bids) && totals_fit(self@.asks)),
    {
        side_fits(&self.bids) && side_fits(&self.asks)
    }

    /// Whether another order id can still be handed out.
    pub fn has_ids_left(&self) -> (ok: bool)
        ensures
            ok == (self@.next_id < u64::MAX),
    {
        self.next_id < u64::MAX
    }
}

} // verus!
