use vstd::prelude::*;

use crate::matching::{
    at_least_as_good, book_ok, fill, lemma_fill, lemma_rest_index, rest, rest_index,
    sorted_queue, submit, traded,
};
use crate::order::{valid_order, Order, Side};

verus! {

/// The queue of side `side` in a book with sides `bids` and `asks`.
pub open spec fn side_queue(bids: Seq<Order>, asks: Seq<Order>, side: Side) -> Seq<Order> {
    match side {
        Side::Buy => bids,
        Side::Sell => asks,
    }
}

/// Conservation: for a submitted order, the quantity traded plus the quantity left
/// open equals the quantity submitted, and exactly that open quantity rests on the
/// order's own side (nothing rests when nothing is left open).
pub proof fn lemma_conservation(bids: Seq<Order>, asks: Seq<Order>, o: Order)
    requires
        book_ok(bids, asks),
        valid_order(o),
    ensures
        ({
            let s = submit(bids, asks, o);
            let open = fill(side_queue(bids, asks, o.side.opposite()), o).2;
            let own = side_queue(bids, asks, o.side);
            let own_after = side_queue(s.1, s.2, o.side);
            &&& traded(s.0) + open == o.quantity
            &&& open == 0 ==> own_after == own
            &&& open > 0 ==> own_after == own.insert(
                rest_index(own, Order { quantity: open, ..o }),
                Order { quantity: open, ..o },
            )
        }),
{
    let opp = side_queue(bids, asks, o.side.opposite());
    lemma_fill(opp, o);
    let open = fill(opp, o).2;
    lemma_rest_index(side_queue(bids, asks, o.side), Order { quantity: open, ..o });
}

/// Matching serves the opposite queue strictly from the front: the i-th trade is
/// against the i-th resting order, at its price, and every trade but the last fills
/// its resting order completely.
pub proof fn lemma_fill_in_queue_order(q: Seq<Order>, taker: Order)
    ensures
        fill(q, taker).0.len() <= q.len(),
        forall|i: int|
            0 <= i < fill(q, taker).0.len() ==> (#[trigger] fill(q, taker).0[i]).maker_order_id
                == q[i].id && fill(q, taker).0[i].price == q[i].price
                && fill(q, taker).0[i].taker_order_id == taker.id,
        forall|i: int|
            0 <= i < fill(q, taker).0.len() - 1 ==> (#[trigger] fill(q, taker).0[i]).quantity
                == q[i].quantity,
    decreases q.len(), taker.quantity,
{
    if taker.quantity == 0 || q.len() == 0 || !crate::matching::crosses(
        taker.side,
        taker.price as int,
        q[0].price as int,
    ) {
    } else {
        let maker = q[0];
        let t = if taker.quantity < maker.quantity { taker.quantity } else { maker.quantity };
        let q2 = if maker.quantity <= taker.quantity {
            q.drop_first()
        } else {
            q.update(0, Order { quantity: (maker.quantity - t) as u64, ..maker })
        };
        let taker2 = Order { quantity: (taker.quantity - t) as u64, ..taker };
        lemma_fill_in_queue_order(q2, taker2);
        let r = fill(q2, taker2);
        let trades = fill(q, taker).0;
        if maker.quantity > taker.quantity {
            assert(r.0.len() == 0);
        }
        assert forall|i: int| 1 <= i < trades.len() implies trades[i] == r.0[i - 1] && q[i] == q2[
            i - 1] by {}
    }
}

/// Matching leaves the opposite queue in its old order: what remains is the old queue
/// without its first `d` orders, where `d` is the number of orders filled completely;
/// only the new front may have lost quantity, and every trade was against one of the
/// orders in front of it, so none of the orders left behind was passed over.
pub proof fn lemma_fill_keeps_rest_in_order(q: Seq<Order>, taker: Order)
    ensures
        ({
            let f = fill(q, taker);
            let d = q.len() - f.1.len();
            &&& 0 <= d <= f.0.len() <= d + 1
            &&& forall|i: int| 0 < i < f.1.len() ==> #[trigger] f.1[i] == q[i + d]
            &&& f.1.len() > 0 ==> f.1[0] == (Order { quantity: f.1[0].quantity, ..q[d] })
                && f.1[0].quantity <= q[d].quantity
            &&& f.0.len() == d + 1 ==> f.1.len() > 0
        }),
    decreases q.len(), taker.quantity,
{
    if taker.quantity == 0 || q.len() == 0 || !crate::matching::crosses(
        taker.side,
        taker.price as int,
        q[0].price as int,
    ) {
        if q.len() > 0 {
            assert(q[0] == (Order { quantity: q[0].quantity, ..q[0] }));
        }
    } else {
        let maker = q[0];
        let t = if taker.quantity < maker.quantity { taker.quantity } else { maker.quantity };
        let q2 = if maker.quantity <= taker.quantity {
            q.drop_first()
        } else {
            q.update(0, Order { quantity: (maker.quantity - t) as u64, ..maker })
        };
        let taker2 = Order { quantity: (taker.quantity - t) as u64, ..taker };
        lemma_fill_keeps_rest_in_order(q2, taker2);
        let r = fill(q2, taker2);
        if maker.quantity <= taker.quantity {
            let d2 = q2.len() - r.1.len();
            assert forall|i: int| 0 < i < r.1.len() implies #[trigger] r.1[i] == q[i + d2 + 1] by {
                assert(q2[i + d2] == q[i + d2 + 1]);
            }
            if r.1.len() > 0 {
                assert(q2[d2] == q[d2 + 1]);
            }
        } else {
            assert(r.0.len() == 0);
            assert(r.1 == q2);
        }
    }
}

/// Price priority: if a resting order is traded by an incoming order, every resting
/// order on that side at a strictly better price was traded first and filled
/// completely.
pub proof fn lemma_price_priority(q: Seq<Order>, taker: Order, i: int, j: int)
    requires
        sorted_queue(taker.side.opposite(), q),
        0 <= i < q.len(),
        0 <= j < q.len(),
        at_least_as_good(taker.side.opposite(), q[i].price as int, q[j].price as int),
        q[i].price != q[j].price,
        j < fill(q, taker).0.len(),
    ensures
        i < j,
        fill(q, taker).0[i].maker_order_id == q[i].id,
        fill(q, taker).0[i].quantity == q[i].quantity,
{
    lemma_fill_in_queue_order(q, taker);
    if j <= i {
        if j < i {
            assert(at_least_as_good(taker.side.opposite(), q[j].price as int, q[i].price as int));
        }
    }
    assert(fill(q, taker).0[i].quantity == q[i].quantity);
}

/// Time priority: an order rests behind every order already resting at its price, and
/// among orders at one price the one ahead in the queue is filled completely before
/// the one behind it is traded.
pub proof fn lemma_time_priority(q: Seq<Order>, o: Order, taker: Order, i: int, j: int)
    requires
        sorted_queue(o.side, q),
        0 <= i < j < q.len(),
        q[i].price == q[j].price,
        j < fill(q, taker).0.len(),
    ensures
        rest(q, o) == q.insert(rest_index(q, o), o),
        forall|k: int| 0 <= k < q.len() && #[trigger] q[k].price == o.price ==> k < rest_index(q, o),
        fill(q, taker).0[i].maker_order_id == q[i].id,
        fill(q, taker).0[i].quantity == q[i].quantity,
{
    lemma_rest_index(q, o);
    lemma_fill_in_queue_order(q, taker);
    let k0 = rest_index(q, o);
    assert forall|k: int| 0 <= k < q.len() && #[trigger] q[k].price == o.price implies k < k0 by {
        if k >= k0 {
            assert(k0 < q.len());
            assert(k == k0 || at_least_as_good(o.side, q[k0].price as int, q[k].price as int));
        }
    }
}

/// Against an empty opposite side nothing trades and the whole order rests.
pub proof fn lemma_empty_opposite_rests_all(bids: Seq<Order>, asks: Seq<Order>, o: Order)
    requires
        valid_order(o),
        side_queue(bids, asks, o.side.opposite()).len() == 0,
    ensures
        submit(bids, asks, o).0 == Seq::<crate::order::Trade>::empty(),
        side_queue(submit(bids, asks, o).1, submit(bids, asks, o).2, o.side) == rest(
            side_queue(bids, asks, o.side),
            o,
        ),
        side_queue(submit(bids, asks, o).1, submit(bids, asks, o).2, o.side.opposite()).len() == 0,
{
    assert(Order { quantity: o.quantity, ..o } == o);
}

} // verus!
