use vstd::prelude::*;

use crate::level::{
    cross_levels, flat, lemma_flat_concat, lemma_flat_front, lemma_flat_prices, levels_ok,
    rest_in_levels, PriceLevel,
};
use crate::matching::{book_ok, fill, lemma_submit_keeps_book_ok, submit};
use crate::order::{valid_order, Order, OrderError, Side, Trade};

verus! {

/// Holds of the orders resting at `price`.
pub open spec fn at_price(price: i64) -> spec_fn(Order) -> bool {
    |o: Order| o.price == price
}

/// If `pred` holds of every element, filtering by it keeps everything.
proof fn lemma_filter_all(s: Seq<Order>, pred: spec_fn(Order) -> bool)
    requires
        forall|i: int| 0 <= i < s.len() ==> pred(#[trigger] s[i]),
    ensures
        s.filter(pred) == s,
    decreases s.len(),
{
    if s.len() > 0 {
        let init = s.drop_last();
        assert forall|i: int| 0 <= i < init.len() implies pred(#[trigger] init[i]) by {
            assert(init[i] == s[i]);
        }
        lemma_filter_all(init, pred);
        assert(s =~= init.push(s.last()));
        init.lemma_filter_push(s.last(), pred);
    } else {
        reveal(Seq::filter);
    }
}

/// A two-sided limit order book for one instrument.
///
/// Each side is a sequence of price levels, best price first; each level holds the
/// orders resting at its price, oldest first, and exists exactly while it holds one.
/// Read level after level, a side is one queue in price-time priority.
pub struct OrderBook {
    bids: Vec<PriceLevel>,
    asks: Vec<PriceLevel>,
}

impl OrderBook {
    /// The resting buy orders, in priority order (highest price first, then oldest).
    pub closed spec fn bid_queue(&self) -> Seq<Order> {
        flat(self.bids@)
    }

    /// The resting sell orders, in priority order (lowest price first, then oldest).
    pub closed spec fn ask_queue(&self) -> Seq<Order> {
        flat(self.asks@)
    }

    /// The price levels are well formed.
    closed spec fn levels_wf(&self) -> bool {
        levels_ok(Side::Buy, self.bids@) && levels_ok(Side::Sell, self.asks@)
    }

    /// Both sides are well formed and the book is not crossed.
    pub closed spec fn wf(&self) -> bool {
        self.levels_wf() && book_ok(self.bid_queue(), self.ask_queue())
    }

    /// The queue of one side.
    pub open spec fn queue(&self, side: Side) -> Seq<Order> {
        match side {
            Side::Buy => self.bid_queue(),
            Side::Sell => self.ask_queue(),
        }
    }

    /// A book that `new` made and `add_order` kept is never crossed: when both sides
    /// hold orders, the best bid is strictly below the best ask. Each side is a queue
    /// in price-time priority of open orders with positive prices.
    pub proof fn lemma_never_crossed(&self)
        requires
            self.wf(),
        ensures
            book_ok(self.bid_queue(), self.ask_queue()),
            self.bid_queue().len() > 0 && self.ask_queue().len() > 0 ==> self.bid_queue()[0].price
                < self.ask_queue()[0].price,
    {
    }

    /// An empty book.
    pub fn new() -> (r: OrderBook)
        ensures
            r.wf(),
            r.bid_queue() == Seq::<Order>::empty(),
            r.ask_queue() == Seq::<Order>::empty(),
    {
        OrderBook { bids: Vec::new(), asks: Vec::new() }
    }

    /// The highest resting bid price, if any bid rests.
    pub fn best_bid(&self) -> (r: Option<i64>)
        requires
            self.wf(),
        ensures
            r == (if self.bid_queue().len() > 0 {
                Some(self.bid_queue()[0].price)
            } else {
                None
            }),
    {
        proof {
            lemma_flat_front(self.bids@, Side::Buy);
        }
        if self.bids.len() > 0 {
            Some(self.bids[0].price)
        } else {
            None
        }
    }

    /// The lowest resting ask price, if any ask rests.
    pub fn best_ask(&self) -> (r: Option<i64>)
        requires
            self.wf(),
        ensures
            r == (if self.ask_queue().len() > 0 {
                Some(self.ask_queue()[0].price)
            } else {
                None
            }),
    {
        proof {
            lemma_flat_front(self.asks@, Side::Sell);
        }
        if self.asks.len() > 0 {
            Some(self.asks[0].price)
        } else {
            None
        }
    }

    /// The price level at `price` on `side`: its resting orders, oldest first. Empty
    /// when no order rests at that price.
    pub fn level(&self, side: Side, price: i64) -> (r: Vec<Order>)
        requires
            self.wf(),
        ensures
            r@ == self.queue(side).filter(at_price(price)),
    {
        let levels = match side {
            Side::Buy => &self.bids,
            Side::Sell => &self.asks,
        };
        let ghost ls = levels@;
        let ghost pred = at_price(price);
        let mut i: usize = 0;
        while i < levels.len() && levels[i].price != price
            invariant
                0 <= i <= levels.len(),
                levels@ == ls,
                forall|j: int| 0 <= j < i ==> (#[trigger] ls[j]).price != price,
            decreases levels.len() - i,
        {
            i = i + 1;
        }
        let mut r: Vec<Order> = Vec::new();
        if i < levels.len() {
            let orders = &levels[i].orders;
            let mut k: usize = 0;
            while k < orders.len()
                invariant
                    0 <= k <= orders.len(),
                    r@ == orders@.take(k as int),
                decreases orders.len() - k,
            {
                r.push(orders[k]);
                proof {
                    assert(orders@.take(k + 1) =~= orders@.take(k as int).push(orders@[k as int]));
                }
                k = k + 1;
            }
            proof {
                assert(orders@.take(k as int) =~= orders@);
            }
        }
        proof {
            let ne = |x: i64| x != price;
            let head = ls.take(i as int);
            assert(ls.take(i as int) + ls.skip(i as int) =~= ls);
            lemma_flat_concat(head, ls.skip(i as int));
            assert forall|a: int, b: int| 0 <= a < head.len() && 0 <= b < head[a].orders@.len() implies (
            #[trigger] head[a].orders@[b]).price == head[a].price by {
                assert(head[a] == ls[a]);
            }
            assert forall|a: int| 0 <= a < head.len() implies ne((#[trigger] head[a]).price) by {
                assert(head[a] == ls[a]);
            }
            lemma_flat_prices(head, ne);
            assert forall|j: int| 0 <= j < flat(head).len() implies !pred(#[trigger] flat(head)[j]) by {
                assert(ne(flat(head)[j].price));
            }
            flat(head).lemma_all_neg_filter_empty(pred);
            Seq::filter_distributes_over_add(flat(head), flat(ls.skip(i as int)), pred);
            if i < ls.len() {
                let lq = ls[i as int].orders@;
                let after = ls.skip(i + 1);
                assert(ls.skip(i as int) =~= seq![ls[i as int]] + after);
                assert((seq![ls[i as int]] + after).drop_first() =~= after);
                assert(flat(ls.skip(i as int)) == lq + flat(after));
                assert forall|a: int, b: int| 0 <= a < after.len() && 0 <= b < after[a].orders@.len() implies (
                #[trigger] after[a].orders@[b]).price == after[a].price by {
                    assert(after[a] == ls[a + i + 1]);
                }
                assert forall|a: int| 0 <= a < after.len() implies ne((#[trigger] after[a]).price) by {
                    assert(after[a] == ls[a + i + 1]);
                }
                lemma_flat_prices(after, ne);
                assert forall|j: int| 0 <= j < flat(after).len() implies !pred(#[trigger] flat(after)[j]) by {
                    assert(ne(flat(after)[j].price));
                }
                flat(after).lemma_all_neg_filter_empty(pred);
                Seq::filter_distributes_over_add(lq, flat(after), pred);
                assert forall|j: int| 0 <= j < lq.len() implies pred(#[trigger] lq[j]) by {
                    assert(ls[i as int].orders@[j].price == ls[i as int].price);
                }
                lemma_filter_all(lq, pred);
                assert(Seq::<Order>::empty() + (lq + Seq::<Order>::empty()) =~= r@);
            } else {
                assert(ls.skip(i as int) =~= Seq::<PriceLevel>::empty());
                assert(flat(ls.skip(i as int)) =~= Seq::<Order>::empty());
                reveal(Seq::filter);
                assert(Seq::<Order>::empty() + Seq::<Order>::empty() =~= r@);
            }
        }
        r
    }

    /// Submits an order. An order with a non-positive price or a zero quantity is
    /// refused and the book is left as it was. Otherwise the order trades against
    /// the opposite side in price-time priority, each trade at the resting order's
    /// price, and what stays open rests on the order's own side. Returns the trades
    /// in execution order.
    pub fn add_order(&mut self, order: Order) -> (r: Result<Vec<Trade>, OrderError>)
        requires
            old(self).wf(),
        ensures
            final(self).wf(),
            !valid_order(order) ==> r == Err::<Vec<Trade>, OrderError>(OrderError::InvalidOrder)
                && *final(self) == *old(self)
                && final(self).bid_queue() == old(self).bid_queue()
                && final(self).ask_queue() == old(self).ask_queue(),
            valid_order(order) ==> r is Ok
                && r->Ok_0@ == submit(old(self).bid_queue(), old(self).ask_queue(), order).0
                && final(self).bid_queue() == submit(old(self).bid_queue(), old(self).ask_queue(), order).1
                && final(self).ask_queue() == submit(old(self).bid_queue(), old(self).ask_queue(), order).2,
    {
        if !order.is_valid() {
            return Err(OrderError::InvalidOrder);
        }
        proof {
            lemma_submit_keeps_book_ok(self.bid_queue(), self.ask_queue(), order);
        }
        let mut order = order;
        let trades = match order.side {
            Side::Buy => self.match_bid(&mut order),
            Side::Sell => self.match_ask(&mut order),
        };
        Ok(trades)
    }

    /// Matches an incoming buy against the asks and rests what stays open among the
    /// bids.
    fn match_bid(&mut self, order: &mut Order) -> (trades: Vec<Trade>)
        requires
            old(self).levels_wf(),
            old(order).side == Side::Buy,
        ensures
            final(self).levels_wf(),
            *final(order) == (Order { quantity: fill(old(self).ask_queue(), *old(order)).2, ..*old(order) }),
            trades@ == submit(old(self).bid_queue(), old(self).ask_queue(), *old(order)).0,
            final(self).bid_queue() == submit(old(self).bid_queue(), old(self).ask_queue(), *old(order)).1,
            final(self).ask_queue() == submit(old(self).bid_queue(), old(self).ask_queue(), *old(order)).2,
    {
        let trades = cross_levels(&mut self.asks, order);
        if order.quantity > 0 {
            rest_in_levels(&mut self.bids, *order);
        }
        trades
    }

    /// Matches an incoming sell against the bids and rests what stays open among the
    /// asks.
    fn match_ask(&mut self, order: &mut Order) -> (trades: Vec<Trade>)
        requires
            old(self).levels_wf(),
            old(order).side == Side::Sell,
        ensures
            final(self).levels_wf(),
            *final(order) == (Order { quantity: fill(old(self).bid_queue(), *old(order)).2, ..*old(order) }),
            trades@ == submit(old(self).bid_queue(), old(self).ask_queue(), *old(order)).0,
            final(self).bid_queue() == submit(old(self).bid_queue(), old(self).ask_queue(), *old(order)).1,
            final(self).ask_queue() == submit(old(self).bid_queue(), old(self).ask_queue(), *old(order)).2,
    {
        let trades = cross_levels(&mut self.bids, order);
        if order.quantity > 0 {
            rest_in_levels(&mut self.asks, *order);
        }
        trades
    }
}

} // verus!
