use vstd::prelude::*;

use crate::order::{valid_order, Order, Side, Trade};

verus! {

/// For resting orders of side `side`: a price `a` has priority at least as high as `b`
/// (bids: higher is better; asks: lower is better).
pub open spec fn at_least_as_good(side: Side, a: int, b: int) -> bool {
    match side {
        Side::Buy => a >= b,
        Side::Sell => a <= b,
    }
}

/// An incoming order of side `taker` at `taker_price` may trade against a resting
/// order at `resting_price`.
pub open spec fn crosses(taker: Side, taker_price: int, resting_price: int) -> bool {
    match taker {
        Side::Buy => resting_price <= taker_price,
        Side::Sell => resting_price >= taker_price,
    }
}

/// A well-formed queue of resting orders of one side, in priority order: best price
/// first, and at one price, earliest arrival first.
pub open spec fn sorted_queue(side: Side, q: Seq<Order>) -> bool {
    &&& forall|i: int| 0 <= i < q.len() ==> #[trigger] q[i].side == side && q[i].price > 0
        && q[i].quantity > 0
    &&& forall|i: int, j: int|
        0 <= i < j < q.len() ==> at_least_as_good(side, #[trigger] q[i].price as int, #[trigger] q[j].price as int)
}

/// The two sides of a book are well formed and the book is not crossed: whenever
/// both sides hold orders, the best bid is strictly below the best ask.
pub open spec fn book_ok(bids: Seq<Order>, asks: Seq<Order>) -> bool {
    &&& sorted_queue(Side::Buy, bids)
    &&& sorted_queue(Side::Sell, asks)
    &&& bids.len() > 0 && asks.len() > 0 ==> bids[0].price < asks[0].price
}

/// Total quantity of a sequence of trades.
pub open spec fn traded(trades: Seq<Trade>) -> int
    decreases trades.len(),
{
    if trades.len() == 0 {
        0
    } else {
        trades[0].quantity + traded(trades.drop_first())
    }
}

/// Matching of an incoming order `taker` against the opposite side's queue `q`:
/// the trades in execution order, the queue left behind, and the quantity of the
/// incoming order that is still open. The front (oldest, best priced) resting order
/// is traded first, at its own price, for the smaller of the two open quantities.
pub open spec fn fill(q: Seq<Order>, taker: Order) -> (Seq<Trade>, Seq<Order>, u64)
    decreases q.len(), taker.quantity,
{
    if taker.quantity == 0 || q.len() == 0 || !crosses(taker.side, taker.price as int, q[0].price as int) {
        (Seq::empty(), q, taker.quantity)
    } else {
        let maker = q[0];
        let t = if taker.quantity < maker.quantity { taker.quantity } else { maker.quantity };
        let trade = Trade {
            price: maker.price,
            quantity: t,
            maker_order_id: maker.id,
            taker_order_id: taker.id,
        };
        let q2 = if maker.quantity <= taker.quantity {
            q.drop_first()
        } else {
            q.update(0, Order { quantity: (maker.quantity - t) as u64, ..maker })
        };
        let r = fill(q2, Order { quantity: (taker.quantity - t) as u64, ..taker });
        (seq![trade] + r.0, r.1, r.2)
    }
}

/// The queue `q` with `o` rested in it: after every order whose price is at least as
/// good as `o`'s, before the first whose price is worse.
pub open spec fn rest(q: Seq<Order>, o: Order) -> Seq<Order>
    decreases q.len(),
{
    if q.len() == 0 {
        seq![o]
    } else if at_least_as_good(o.side, q[0].price as int, o.price as int) {
        seq![q[0]] + rest(q.drop_first(), o)
    } else {
        seq![o] + q
    }
}

/// What submitting a valid order `o` does to a book with sides `bids` and `asks`:
/// the trades, then the new bid and ask queues.
pub open spec fn submit(bids: Seq<Order>, asks: Seq<Order>, o: Order) -> (
    Seq<Trade>,
    Seq<Order>,
    Seq<Order>,
) {
    match o.side {
        Side::Buy => {
            let f = fill(asks, o);
            let new_bids = if f.2 > 0 { rest(bids, Order { quantity: f.2, ..o }) } else { bids };
            (f.0, new_bids, f.1)
        },
        Side::Sell => {
            let f = fill(bids, o);
            let new_asks = if f.2 > 0 { rest(asks, Order { quantity: f.2, ..o }) } else { asks };
            (f.0, f.1, new_asks)
        },
    }
}

/// Where `rest` places `o` in `q`: the number of leading orders whose price is at
/// least as good as `o`'s.
pub open spec fn rest_index(q: Seq<Order>, o: Order) -> int
    decreases q.len(),
{
    if q.len() == 0 {
        0
    } else if at_least_as_good(o.side, q[0].price as int, o.price as int) {
        1 + rest_index(q.drop_first(), o)
    } else {
        0
    }
}

/// Resting `o` is inserting it at the first position whose order has a worse price.
pub proof fn lemma_rest_at(q: Seq<Order>, o: Order, k: int)
    requires
        0 <= k <= q.len(),
        forall|j: int| 0 <= j < k ==> at_least_as_good(o.side, #[trigger] q[j].price as int, o.price as int),
        k < q.len() ==> !at_least_as_good(o.side, q[k].price as int, o.price as int),
    ensures
        rest(q, o) == q.insert(k, o),
    decreases q.len(),
{
    if q.len() == 0 {
        assert(q.insert(k, o) =~= seq![o]);
    } else if k == 0 {
        assert(q.insert(k, o) =~= seq![o] + q);
    } else {
        let q2 = q.drop_first();
        assert forall|j: int| 0 <= j < k - 1 implies at_least_as_good(o.side, #[trigger] q2[j].price as int, o.price as int) by {
            assert(q2[j] == q[j + 1]);
        }
        lemma_rest_at(q2, o, k - 1);
        assert(q.insert(k, o) =~= seq![q[0]] + q2.insert(k - 1, o));
    }
}

/// `rest_index` is that first position.
pub proof fn lemma_rest_index(q: Seq<Order>, o: Order)
    ensures
        0 <= rest_index(q, o) <= q.len(),
        forall|j: int| 0 <= j < rest_index(q, o) ==> at_least_as_good(o.side, #[trigger] q[j].price as int, o.price as int),
        rest_index(q, o) < q.len() ==> !at_least_as_good(o.side, q[rest_index(q, o)].price as int, o.price as int),
        rest(q, o) == q.insert(rest_index(q, o), o),
    decreases q.len(),
{
    if q.len() > 0 && at_least_as_good(o.side, q[0].price as int, o.price as int) {
        let q2 = q.drop_first();
        lemma_rest_index(q2, o);
        assert forall|j: int| 0 <= j < rest_index(q, o) implies at_least_as_good(o.side, #[trigger] q[j].price as int, o.price as int) by {
            if j > 0 {
                assert(q[j] == q2[j - 1]);
            }
        }
    }
    lemma_rest_at(q, o, rest_index(q, o));
}

/// Inserting a valid order of the queue's side at its resting position keeps the
/// queue well formed.
pub proof fn lemma_insert_sorted(q: Seq<Order>, o: Order, k: int)
    requires
        sorted_queue(o.side, q),
        o.price > 0,
        o.quantity > 0,
        0 <= k <= q.len(),
        forall|j: int| 0 <= j < k ==> at_least_as_good(o.side, #[trigger] q[j].price as int, o.price as int),
        k < q.len() ==> !at_least_as_good(o.side, q[k].price as int, o.price as int),
    ensures
        sorted_queue(o.side, q.insert(k, o)),
{
    let r = q.insert(k, o);
    assert forall|j: int| k <= j < q.len() implies at_least_as_good(o.side, o.price as int, #[trigger] q[j].price as int) by {
        assert(at_least_as_good(o.side, q[k].price as int, q[j].price as int) || k == j);
    }
    assert forall|i: int| 0 <= i < r.len() implies #[trigger] r[i].side == o.side && r[i].price > 0 && r[i].quantity > 0 by {
        if i > k {
            assert(r[i] == q[i - 1]);
        }
    }
    assert forall|i: int, j: int| 0 <= i < j < r.len() implies at_least_as_good(o.side, #[trigger] r[i].price as int, #[trigger] r[j].price as int) by {
        if j < k {
        } else if j == k {
        } else if i < k {
            assert(r[j] == q[j - 1]);
            assert(at_least_as_good(o.side, q[i].price as int, q[j - 1].price as int));
        } else if i == k {
            assert(r[j] == q[j - 1]);
        } else {
            assert(r[i] == q[i - 1]);
            assert(r[j] == q[j - 1]);
        }
    }
}

/// What matching establishes of the queue it leaves behind and of the incoming order:
/// the queue stays well formed, its front is no better than before, matching stopped
/// only for want of a crossing order, and no quantity was lost or made up.
pub proof fn lemma_fill(q: Seq<Order>, taker: Order)
    requires
        sorted_queue(taker.side.opposite(), q),
    ensures
        sorted_queue(taker.side.opposite(), fill(q, taker).1),
        fill(q, taker).1.len() > 0 ==> q.len() > 0 && at_least_as_good(
            taker.side.opposite(),
            q[0].price as int,
            fill(q, taker).1[0].price as int,
        ),
        fill(q, taker).2 > 0 ==> fill(q, taker).1.len() == 0 || !crosses(
            taker.side,
            taker.price as int,
            fill(q, taker).1[0].price as int,
        ),
        traded(fill(q, taker).0) + fill(q, taker).2 == taker.quantity,
    decreases q.len(), taker.quantity,
{
    let side = taker.side.opposite();
    if taker.quantity == 0 || q.len() == 0 || !crosses(taker.side, taker.price as int, q[0].price as int) {
    } else {
        let maker = q[0];
        let t = if taker.quantity < maker.quantity { taker.quantity } else { maker.quantity };
        let trade = Trade {
            price: maker.price,
            quantity: t,
            maker_order_id: maker.id,
            taker_order_id: taker.id,
        };
        let q2 = if maker.quantity <= taker.quantity {
            q.drop_first()
        } else {
            q.update(0, Order { quantity: (maker.quantity - t) as u64, ..maker })
        };
        let taker2 = Order { quantity: (taker.quantity - t) as u64, ..taker };
        assert forall|i: int| 0 <= i < q2.len() implies #[trigger] q2[i].side == side && q2[i].price > 0
            && q2[i].quantity > 0 by {
            if maker.quantity <= taker.quantity {
                assert(q2[i] == q[i + 1]);
            }
        }
        assert forall|i: int, j: int| 0 <= i < j < q2.len() implies at_least_as_good(side, #[trigger] q2[i].price as int, #[trigger] q2[j].price as int) by {
            if maker.quantity <= taker.quantity {
                assert(q2[i] == q[i + 1]);
                assert(q2[j] == q[j + 1]);
            } else {
                assert(q2[j] == q[j]);
                assert(q2[i].price == q[i].price);
            }
        }
        lemma_fill(q2, taker2);
        let r = fill(q2, taker2);
        assert((seq![trade] + r.0).drop_first() =~= r.0);
        if r.1.len() > 0 {
            if maker.quantity <= taker.quantity {
                assert(q2[0] == q[1]);
            }
        }
    }
}

/// Submitting a valid order to a well-formed, uncrossed book leaves it well formed
/// and uncrossed: if both sides hold orders, the best bid is below the best ask.
pub proof fn lemma_submit_keeps_book_ok(bids: Seq<Order>, asks: Seq<Order>, o: Order)
    requires
        book_ok(bids, asks),
        valid_order(o),
    ensures
        book_ok(submit(bids, asks, o).1, submit(bids, asks, o).2),
{
    let (own, opp) = match o.side {
        Side::Buy => (bids, asks),
        Side::Sell => (asks, bids),
    };
    lemma_fill(opp, o);
    let f = fill(opp, o);
    if f.2 > 0 {
        let o2 = Order { quantity: f.2, ..o };
        lemma_rest_index(own, o2);
        lemma_insert_sorted(own, o2, rest_index(own, o2));
        let r = rest(own, o2);
        assert(r[0] == o2 || r[0] == own[0]);
    }
}

} // verus!
