use std::collections::VecDeque;

use vstd::prelude::*;

use crate::matching::{at_least_as_good, crosses, fill, rest};
use crate::order::{Order, Side, Trade};

verus! {

/// The orders resting at one price, oldest first.
pub struct PriceLevel {
    pub price: i64,
    pub orders: VecDeque<Order>,
}

/// The orders of a side's levels, level after level: the side's queue in priority order.
pub open spec fn flat(levels: Seq<PriceLevel>) -> Seq<Order>
    decreases levels.len(),
{
    if levels.len() == 0 {
        Seq::empty()
    } else {
        levels[0].orders@ + flat(levels.drop_first())
    }
}

/// The levels of side `side` are well formed: none is empty, each holds only orders at
/// its price, and the prices are distinct and ordered best first.
pub open spec fn levels_ok(side: Side, levels: Seq<PriceLevel>) -> bool {
    &&& forall|i: int| 0 <= i < levels.len() ==> (#[trigger] levels[i]).orders@.len() > 0
    &&& forall|i: int, j: int|
        0 <= i < levels.len() && 0 <= j < levels[i].orders@.len() ==> (
        #[trigger] levels[i].orders@[j]).price == levels[i].price
    &&& forall|i: int, j: int|
        0 <= i < j < levels.len() ==> at_least_as_good(
            side,
            (#[trigger] levels[i]).price as int,
            (#[trigger] levels[j]).price as int,
        ) && levels[i].price != levels[j].price
}

pub proof fn lemma_flat_concat(x: Seq<PriceLevel>, y: Seq<PriceLevel>)
    ensures
        flat(x + y) == flat(x) + flat(y),
    decreases x.len(),
{
    if x.len() == 0 {
        assert(x + y =~= y);
        assert(flat(x) + flat(y) =~= flat(y));
    } else {
        assert((x + y).drop_first() =~= x.drop_first() + y);
        lemma_flat_concat(x.drop_first(), y);
        assert((x + y)[0] == x[0]);
        assert(x[0].orders@ + (flat(x.drop_first()) + flat(y)) =~= (x[0].orders@ + flat(
            x.drop_first(),
        )) + flat(y));
    }
}

/// The front of the flattened queue is the front of the best level.
pub proof fn lemma_flat_front(levels: Seq<PriceLevel>, side: Side)
    requires
        levels_ok(side, levels),
    ensures
        flat(levels).len() == 0 <==> levels.len() == 0,
        levels.len() > 0 ==> flat(levels)[0] == levels[0].orders@[0] && flat(levels)[0].price
            == levels[0].price,
{
    if levels.len() > 0 {
        assert(levels[0].orders@.len() > 0);
        assert(levels[0].orders@[0].price == levels[0].price);
    }
}

/// If every level's price satisfies `pred`, so does every order's.
pub proof fn lemma_flat_prices(levels: Seq<PriceLevel>, pred: spec_fn(i64) -> bool)
    requires
        forall|i: int, j: int|
            0 <= i < levels.len() && 0 <= j < levels[i].orders@.len() ==> (
            #[trigger] levels[i].orders@[j]).price == levels[i].price,
        forall|i: int| 0 <= i < levels.len() ==> pred((#[trigger] levels[i]).price),
    ensures
        forall|j: int| 0 <= j < flat(levels).len() ==> pred((#[trigger] flat(levels)[j]).price),
    decreases levels.len(),
{
    if levels.len() > 0 {
        let tail = levels.drop_first();
        assert forall|i: int, j: int| 0 <= i < tail.len() && 0 <= j < tail[i].orders@.len() implies (
        #[trigger] tail[i].orders@[j]).price == tail[i].price by {
            assert(tail[i] == levels[i + 1]);
        }
        assert forall|i: int| 0 <= i < tail.len() implies pred((#[trigger] tail[i]).price) by {
            assert(tail[i] == levels[i + 1]);
        }
        lemma_flat_prices(tail, pred);
        let a = levels[0].orders@;
        assert forall|j: int| 0 <= j < flat(levels).len() implies pred((#[trigger] flat(levels)[j]).price) by {
            if j < a.len() {
                assert(flat(levels)[j] == a[j]);
                assert(levels[0].orders@[j].price == levels[0].price);
            } else {
                assert(flat(levels)[j] == flat(tail)[j - a.len()]);
            }
        }
    }
}

/// Matching against a queue made of two parts matches the first part, and goes on to
/// the second only once the first is used up.
proof fn lemma_fill_concat(a: Seq<Order>, b: Seq<Order>, t: Order)
    ensures
        fill(a + b, t) == (if fill(a, t).1.len() == 0 {
            let g = fill(b, Order { quantity: fill(a, t).2, ..t });
            (fill(a, t).0 + g.0, g.1, g.2)
        } else {
            (fill(a, t).0, fill(a, t).1 + b, fill(a, t).2)
        }),
    decreases a.len(), t.quantity,
{
    if t.quantity == 0 || a.len() == 0 || !crosses(t.side, t.price as int, a[0].price as int) {
        assert(Order { quantity: t.quantity, ..t } == t);
        if a.len() == 0 {
            assert(a + b =~= b);
            assert(Seq::<Trade>::empty() + fill(b, t).0 =~= fill(b, t).0);
        } else {
            assert((a + b)[0] == a[0]);
        }
    } else {
        let maker = a[0];
        let q = if t.quantity < maker.quantity { t.quantity } else { maker.quantity };
        let a2 = if maker.quantity <= t.quantity {
            a.drop_first()
        } else {
            a.update(0, Order { quantity: (maker.quantity - q) as u64, ..maker })
        };
        let t2 = Order { quantity: (t.quantity - q) as u64, ..t };
        assert((a + b)[0] == a[0]);
        if maker.quantity <= t.quantity {
            assert((a + b).drop_first() =~= a2 + b);
        } else {
            assert((a + b).update(0, Order { quantity: (maker.quantity - q) as u64, ..maker })
                =~= a2 + b);
        }
        lemma_fill_concat(a2, b, t2);
        let trade = Trade {
            price: maker.price,
            quantity: q,
            maker_order_id: maker.id,
            taker_order_id: t.id,
        };
        let f2 = fill(a2, t2);
        if f2.1.len() == 0 {
            let g = fill(b, Order { quantity: f2.2, ..t2 });
            assert(Order { quantity: f2.2, ..t2 } == Order { quantity: f2.2, ..t });
            assert(seq![trade] + (f2.0 + g.0) =~= (seq![trade] + f2.0) + g.0);
        }
    }
}

/// Matching stops only when the incoming order is filled or the front does not cross.
proof fn lemma_fill_stop(q: Seq<Order>, t: Order)
    ensures
        fill(q, t).2 > 0 ==> fill(q, t).1.len() == 0 || !crosses(
            t.side,
            t.price as int,
            fill(q, t).1[0].price as int,
        ),
        fill(q, t).2 <= t.quantity,
    decreases q.len(), t.quantity,
{
    if t.quantity == 0 || q.len() == 0 || !crosses(t.side, t.price as int, q[0].price as int) {
    } else {
        let maker = q[0];
        let k = if t.quantity < maker.quantity { t.quantity } else { maker.quantity };
        let q2 = if maker.quantity <= t.quantity {
            q.drop_first()
        } else {
            q.update(0, Order { quantity: (maker.quantity - k) as u64, ..maker })
        };
        lemma_fill_stop(q2, Order { quantity: (t.quantity - k) as u64, ..t });
    }
}

/// Matching against orders of one price leaves only orders of that price.
proof fn lemma_fill_same_price(q: Seq<Order>, t: Order, p: i64)
    requires
        forall|i: int| 0 <= i < q.len() ==> (#[trigger] q[i]).price == p,
    ensures
        forall|i: int| 0 <= i < fill(q, t).1.len() ==> (#[trigger] fill(q, t).1[i]).price == p,
    decreases q.len(), t.quantity,
{
    if t.quantity == 0 || q.len() == 0 || !crosses(t.side, t.price as int, q[0].price as int) {
    } else {
        let maker = q[0];
        let k = if t.quantity < maker.quantity { t.quantity } else { maker.quantity };
        let q2 = if maker.quantity <= t.quantity {
            q.drop_first()
        } else {
            q.update(0, Order { quantity: (maker.quantity - k) as u64, ..maker })
        };
        assert forall|i: int| 0 <= i < q2.len() implies (#[trigger] q2[i]).price == p by {
            if maker.quantity <= t.quantity {
                assert(q2[i] == q[i + 1]);
            }
        }
        lemma_fill_same_price(q2, Order { quantity: (t.quantity - k) as u64, ..t }, p);
    }
}

/// Resting after a run of orders that all have priority over the new one leaves that
/// run in front.
proof fn lemma_rest_concat(a: Seq<Order>, b: Seq<Order>, o: Order)
    requires
        forall|j: int| 0 <= j < a.len() ==> at_least_as_good(o.side, (#[trigger] a[j]).price as int, o.price as int),
    ensures
        rest(a + b, o) == a + rest(b, o),
    decreases a.len(),
{
    if a.len() == 0 {
        assert(a + b =~= b);
        assert(a + rest(b, o) =~= rest(b, o));
    } else {
        assert((a + b)[0] == a[0]);
        assert((a + b).drop_first() =~= a.drop_first() + b);
        assert forall|j: int| 0 <= j < a.drop_first().len() implies at_least_as_good(o.side, (#[trigger] a.drop_first()[j]).price as int, o.price as int) by {
            assert(a.drop_first()[j] == a[j + 1]);
        }
        lemma_rest_concat(a.drop_first(), b, o);
        assert(seq![a[0]] + (a.drop_first() + rest(b, o)) =~= a + rest(b, o));
    }
}

/// Whether `a` is at least as good a price as `b` for resting orders of `side`.
fn at_least_as_good_exec(side: Side, a: i64, b: i64) -> (r: bool)
    ensures
        r == at_least_as_good(side, a as int, b as int),
{
    match side {
        Side::Buy => a >= b,
        Side::Sell => a <= b,
    }
}

/// Whether an incoming order of side `taker` at `taker_price` trades against a
/// resting order at `resting_price`.
fn crosses_exec(taker: Side, taker_price: i64, resting_price: i64) -> (r: bool)
    ensures
        r == crosses(taker, taker_price as int, resting_price as int),
{
    match taker {
        Side::Buy => resting_price <= taker_price,
        Side::Sell => resting_price >= taker_price,
    }
}

/// Matches `taker` against the queue `resting`, front first, until the taker is
/// filled or the front no longer crosses. Appends the trades to `trades`; `taker`
/// keeps its open quantity.
fn cross(resting: &mut VecDeque<Order>, taker: &mut Order, trades: &mut Vec<Trade>)
    ensures
        final(trades)@ == old(trades)@ + fill(old(resting)@, *old(taker)).0,
        final(resting)@ == fill(old(resting)@, *old(taker)).1,
        final(taker).quantity == fill(old(resting)@, *old(taker)).2,
        *final(taker) == (Order { quantity: final(taker).quantity, ..*old(taker) }),
{
    let ghost q0 = resting@;
    let ghost t0 = *taker;
    let ghost tr0 = trades@;
    while taker.quantity > 0 && resting.len() > 0 && crosses_exec(
        taker.side,
        taker.price,
        resting[0].price,
    )
        invariant
            fill(q0, t0) == (
                fill(q0, t0).0,
                fill(resting@, *taker).1,
                fill(resting@, *taker).2,
            ),
            tr0 + fill(q0, t0).0 == trades@ + fill(resting@, *taker).0,
            *taker == (Order { quantity: taker.quantity, ..t0 }),
        decreases resting.len() + taker.quantity,
    {
        let ghost q = resting@;
        let ghost tk = *taker;
        let maker = resting[0];
        let t: u64 = if taker.quantity < maker.quantity {
            taker.quantity
        } else {
            maker.quantity
        };
        let trade = Trade {
            price: maker.price,
            quantity: t,
            maker_order_id: maker.id,
            taker_order_id: taker.id,
        };
        let _ = resting.pop_front();
        if maker.quantity > taker.quantity {
            resting.push_front(Order { quantity: maker.quantity - t, ..maker });
        }
        taker.quantity = taker.quantity - t;
        let ghost prev = trades@;
        trades.push(trade);
        proof {
            if maker.quantity > tk.quantity {
                assert(resting@ =~= q.update(0, Order { quantity: (maker.quantity - t) as u64, ..maker }));
            } else {
                assert(resting@ =~= q.drop_first());
            }
            let r = fill(resting@, *taker);
            assert(fill(q, tk) == (seq![trade] + r.0, r.1, r.2));
            assert(prev + (seq![trade] + r.0) =~= trades@ + r.0);
        }
    }
    proof {
        assert(trades@ + Seq::<Trade>::empty() =~= trades@);
    }
}

/// Matches `taker` against the levels of the opposite side, best level first, and
/// removes each level that it empties. Returns the trades; `taker` keeps its open
/// quantity.
pub fn cross_levels(levels: &mut Vec<PriceLevel>, taker: &mut Order) -> (trades: Vec<Trade>)
    requires
        levels_ok(old(taker).side.opposite(), old(levels)@),
    ensures
        levels_ok(old(taker).side.opposite(), final(levels)@),
        trades@ == fill(flat(old(levels)@), *old(taker)).0,
        flat(final(levels)@) == fill(flat(old(levels)@), *old(taker)).1,
        final(taker).quantity == fill(flat(old(levels)@), *old(taker)).2,
        *final(taker) == (Order { quantity: final(taker).quantity, ..*old(taker) }),
{
    let ghost l0 = levels@;
    let ghost t0 = *taker;
    let ghost side = t0.side.opposite();
    let mut trades: Vec<Trade> = Vec::new();
    while taker.quantity > 0 && levels.len() > 0 && crosses_exec(
        taker.side,
        taker.price,
        levels[0].price,
    )
        invariant
            levels_ok(side, levels@),
            fill(flat(l0), t0) == (
                trades@ + fill(flat(levels@), *taker).0,
                fill(flat(levels@), *taker).1,
                fill(flat(levels@), *taker).2,
            ),
            *taker == (Order { quantity: taker.quantity, ..t0 }),
        decreases levels.len() + taker.quantity,
    {
        let ghost ls = levels@;
        let ghost tk = *taker;
        let ghost tr = trades@;
        let mut level = levels.remove(0);
        let ghost lq = level.orders@;
        proof {
            assert(levels@ =~= ls.drop_first());
            assert(level == ls[0]);
            assert(flat(ls) == lq + flat(levels@));
            lemma_fill_concat(lq, flat(levels@), tk);
            lemma_fill_stop(lq, tk);
            assert forall|i: int| 0 <= i < lq.len() implies (#[trigger] lq[i]).price == level.price by {
                assert(ls[0].orders@[i].price == ls[0].price);
            }
            lemma_fill_same_price(lq, tk, level.price);
        }
        cross(&mut level.orders, taker, &mut trades);
        if level.orders.len() > 0 {
            levels.insert(0, level);
        }
        proof {
            let f = fill(lq, tk);
            if f.1.len() == 0 {
                assert(tr + (f.0 + fill(flat(levels@), *taker).0) =~= trades@ + fill(flat(levels@), *taker).0);
            } else {
                assert(f.1[0].price == level.price);
                assert(levels@ =~= ls.update(0, level));
                assert(levels@.drop_first() =~= ls.drop_first());
                assert(flat(levels@) == f.1 + flat(ls.drop_first()));
                assert(trades@ + Seq::<Trade>::empty() =~= trades@);
            }
        }
    }
    proof {
        lemma_flat_front(levels@, side);
        assert(trades@ + Seq::<Trade>::empty() =~= trades@);
    }
    trades
}

/// Rests `o` on its own side: at the back of the level at its price, or in a new level
/// placed among the others by price.
pub fn rest_in_levels(levels: &mut Vec<PriceLevel>, o: Order)
    requires
        levels_ok(o.side, old(levels)@),
    ensures
        levels_ok(o.side, final(levels)@),
        flat(final(levels)@) == rest(flat(old(levels)@), o),
{
    let ghost l0 = levels@;
    let mut i: usize = 0;
    while i < levels.len() && at_least_as_good_exec(o.side, levels[i].price, o.price)
        && levels[i].price != o.price
        invariant
            0 <= i <= levels.len(),
            levels@ == l0,
            forall|j: int| 0 <= j < i ==> at_least_as_good(o.side, (#[trigger] l0[j]).price as int, o.price as int)
                && l0[j].price != o.price,
        decreases levels.len() - i,
    {
        i = i + 1;
    }
    let ghost head = l0.take(i as int);
    let ghost tail = l0.skip(i as int);
    proof {
        assert(l0 =~= head + tail);
        lemma_flat_concat(head, tail);
        assert forall|a: int, b: int| 0 <= a < head.len() && 0 <= b < head[a].orders@.len() implies (
        #[trigger] head[a].orders@[b]).price == head[a].price by {
            assert(head[a] == l0[a]);
        }
        let pred = |x: i64| at_least_as_good(o.side, x as int, o.price as int);
        assert forall|a: int| 0 <= a < head.len() implies pred((#[trigger] head[a]).price) by {
            assert(head[a] == l0[a]);
        }
        lemma_flat_prices(head, pred);
        assert forall|j: int| 0 <= j < flat(head).len() implies at_least_as_good(o.side, (#[trigger] flat(head)[j]).price as int, o.price as int) by {
            assert(pred(flat(head)[j].price));
        }
        lemma_rest_concat(flat(head), flat(tail), o);
    }
    if i < levels.len() && levels[i].price == o.price {
        let mut level = levels.remove(i);
        let ghost lq = level.orders@;
        level.orders.push_back(o);
        levels.insert(i, level);
        proof {
            let after = l0.skip(i + 1);
            assert(tail =~= seq![l0[i as int]] + after);
            assert(tail.drop_first() =~= after);
            assert(flat(tail) == lq + flat(after));
            assert forall|j: int| 0 <= j < lq.len() implies at_least_as_good(o.side, (#[trigger] lq[j]).price as int, o.price as int) by {
                assert(l0[i as int].orders@[j].price == l0[i as int].price);
            }
            lemma_rest_concat(lq, flat(after), o);
            if after.len() > 0 {
                assert(after[0] == l0[i + 1]);
                lemma_flat_front(after, o.side);
                assert(at_least_as_good(o.side, l0[i as int].price as int, l0[i + 1].price as int));
            }
            assert(rest(flat(after), o) == seq![o] + flat(after));
            assert(levels@ =~= head + (seq![level] + after));
            lemma_flat_concat(head, seq![level] + after);
            assert((seq![level] + after).drop_first() =~= after);
            assert(lq + (seq![o] + flat(after)) =~= level.orders@ + flat(after));
            assert(levels@ =~= l0.update(i as int, level));
        }
    } else {
        let mut orders: VecDeque<Order> = VecDeque::new();
        orders.push_back(o);
        let level = PriceLevel { price: o.price, orders };
        levels.insert(i, level);
        proof {
            if tail.len() > 0 {
                assert(tail[0] == l0[i as int]);
                lemma_flat_front(tail, o.side);
            }
            assert(rest(flat(tail), o) == seq![o] + flat(tail));
            assert(levels@ =~= head + (seq![level] + tail));
            lemma_flat_concat(head, seq![level] + tail);
            assert((seq![level] + tail).drop_first() =~= tail);
            assert(level.orders@ + flat(tail) =~= seq![o] + flat(tail));
            assert forall|j: int| i < j < l0.len() implies at_least_as_good(o.side, o.price as int, (#[trigger] l0[j]).price as int)
                && l0[j].price != o.price by {
                assert(at_least_as_good(o.side, l0[i as int].price as int, l0[j].price as int));
            }
            assert(levels@ =~= l0.insert(i as int, level));
        }
    }
}

} // verus!
