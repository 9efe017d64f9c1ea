use vstd::prelude::*;

verus! {

/// Which side of the book an order belongs to.
#[derive(Clone, Copy, Debug, PartialEq, Eq, Structural)]
pub enum Side {
    Buy,
    Sell,
}

impl Side {
    pub open spec fn opposite_spec(self) -> Side {
        match self {
            Side::Buy => Side::Sell,
            Side::Sell => Side::Buy,
        }
    }

    /// The side that an order of this side trades against.
    #[verifier::when_used_as_spec(opposite_spec)]
    pub fn opposite(self) -> (r: Side)
        ensures
            r == self.opposite_spec(),
    {
        match self {
            Side::Buy => Side::Sell,
            Side::Sell => Side::Buy,
        }
    }
}

/// A limit order. Prices are integer ticks; `quantity` is what is still open.
#[derive(Clone, Copy, Debug, PartialEq, Eq, Structural)]
pub struct Order {
    pub id: u64,
    pub price: i64,
    pub quantity: u64,
    pub side: Side,
}

/// One execution between a resting (maker) order and an incoming (taker) order,
/// at the maker's price.
#[derive(Clone, Copy, Debug, PartialEq, Eq, Structural)]
pub struct Trade {
    pub price: i64,
    pub quantity: u64,
    pub maker_order_id: u64,
    pub taker_order_id: u64,
}

/// Why an order was refused.
#[derive(Clone, Copy, Debug, PartialEq, Eq, Structural)]
pub enum OrderError {
    /// The price is not positive or the quantity is zero.
    InvalidOrder,
}

/// An order the book accepts: a positive price and a non-zero quantity.
pub open spec fn valid_order(o: Order) -> bool {
    o.price > 0 && o.quantity > 0
}

impl Order {
    /// Whether the book accepts this order.
    pub fn is_valid(&self) -> (r: bool)
        ensures
            r == valid_order(*self),
    {
        self.price > 0 && self.quantity > 0
    }
}

} // verus!
