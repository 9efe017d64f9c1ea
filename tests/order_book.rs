use matching_engine::book::OrderBook;
use matching_engine::order::{Order, OrderError, Side, Trade};

fn order(id: u64, price: i64, quantity: u64, side: Side) -> Order {
    Order { id, price, quantity, side }
}

fn trade(price: i64, quantity: u64, maker_order_id: u64, taker_order_id: u64) -> Trade {
    Trade { price, quantity, maker_order_id, taker_order_id }
}

#[test]
fn partial_fill_leaves_ask_remainder() {
    let mut book = OrderBook::new();
    assert_eq!(book.add_order(order(1, 150, 100, Side::Sell)), Ok(vec![]));
    let trades = book.add_order(order(2, 150, 50, Side::Buy)).unwrap();
    assert_eq!(trades, vec![trade(150, 50, 1, 2)]);
    assert_eq!(book.level(Side::Sell, 150), vec![order(1, 150, 50, Side::Sell)]);
    assert_eq!(book.best_ask(), Some(150));
    assert_eq!(book.best_bid(), None);
}

#[test]
fn better_priced_level_consumed_first() {
    let mut book = OrderBook::new();
    book.add_order(order(1, 150, 100, Side::Sell)).unwrap();
    book.add_order(order(2, 140, 100, Side::Sell)).unwrap();
    let trades = book.add_order(order(3, 150, 100, Side::Buy)).unwrap();
    assert_eq!(trades, vec![trade(140, 100, 2, 3)]);
    assert!(book.level(Side::Sell, 140).is_empty());
    assert_eq!(book.level(Side::Sell, 150), vec![order(1, 150, 100, Side::Sell)]);
    assert_eq!(book.best_ask(), Some(150));
    assert_eq!(book.best_bid(), None);
}

#[test]
fn buy_on_empty_book_rests() {
    let mut book = OrderBook::new();
    let trades = book.add_order(order(1, 100, 50, Side::Buy)).unwrap();
    assert!(trades.is_empty());
    assert_eq!(book.level(Side::Buy, 100), vec![order(1, 100, 50, Side::Buy)]);
    assert_eq!(book.best_bid(), Some(100));
}

#[test]
fn sell_below_bid_trades_at_bid_price() {
    let mut book = OrderBook::new();
    book.add_order(order(1, 100, 50, Side::Buy)).unwrap();
    let trades = book.add_order(order(2, 99, 30, Side::Sell)).unwrap();
    assert_eq!(trades, vec![trade(100, 30, 1, 2)]);
    assert_eq!(book.level(Side::Buy, 100), vec![order(1, 100, 20, Side::Buy)]);
    assert!(book.level(Side::Sell, 99).is_empty());
    assert_eq!(book.best_ask(), None);
}

#[test]
fn no_cross_below_best_ask() {
    let mut book = OrderBook::new();
    book.add_order(order(1, 101, 10, Side::Sell)).unwrap();
    let trades = book.add_order(order(2, 100, 10, Side::Buy)).unwrap();
    assert!(trades.is_empty());
    assert_eq!(book.level(Side::Buy, 100), vec![order(2, 100, 10, Side::Buy)]);
    assert_eq!(book.level(Side::Sell, 101), vec![order(1, 101, 10, Side::Sell)]);
    assert_eq!(book.best_bid(), Some(100));
    assert_eq!(book.best_ask(), Some(101));
}

#[test]
fn zero_quantity_is_refused() {
    let mut book = OrderBook::new();
    book.add_order(order(1, 100, 5, Side::Buy)).unwrap();
    book.add_order(order(2, 105, 5, Side::Sell)).unwrap();
    assert_eq!(book.add_order(order(3, 105, 0, Side::Buy)), Err(OrderError::InvalidOrder));
    assert_eq!(book.level(Side::Buy, 100), vec![order(1, 100, 5, Side::Buy)]);
    assert_eq!(book.level(Side::Sell, 105), vec![order(2, 105, 5, Side::Sell)]);
    assert!(book.level(Side::Buy, 105).is_empty());
}

#[test]
fn non_positive_price_is_refused() {
    let mut book = OrderBook::new();
    book.add_order(order(1, 100, 5, Side::Buy)).unwrap();
    assert_eq!(book.add_order(order(2, 0, 5, Side::Sell)), Err(OrderError::InvalidOrder));
    assert_eq!(book.add_order(order(3, -4, 5, Side::Sell)), Err(OrderError::InvalidOrder));
    assert_eq!(book.level(Side::Buy, 100), vec![order(1, 100, 5, Side::Buy)]);
    assert_eq!(book.best_ask(), None);
}

#[test]
fn equal_price_crosses() {
    let mut book = OrderBook::new();
    book.add_order(order(1, 120, 10, Side::Buy)).unwrap();
    let trades = book.add_order(order(2, 120, 10, Side::Sell)).unwrap();
    assert_eq!(trades, vec![trade(120, 10, 1, 2)]);
    assert_eq!(book.best_bid(), None);
    assert_eq!(book.best_ask(), None);
}

#[test]
fn same_price_orders_fill_in_arrival_order() {
    let mut book = OrderBook::new();
    book.add_order(order(1, 100, 10, Side::Sell)).unwrap();
    book.add_order(order(2, 100, 10, Side::Sell)).unwrap();
    book.add_order(order(3, 100, 10, Side::Sell)).unwrap();
    let trades = book.add_order(order(4, 100, 15, Side::Buy)).unwrap();
    assert_eq!(trades, vec![trade(100, 10, 1, 4), trade(100, 5, 2, 4)]);
    assert_eq!(
        book.level(Side::Sell, 100),
        vec![order(2, 100, 5, Side::Sell), order(3, 100, 10, Side::Sell)]
    );
}

#[test]
fn sweep_across_levels_then_rest() {
    let mut book = OrderBook::new();
    book.add_order(order(1, 90, 10, Side::Buy)).unwrap();
    book.add_order(order(2, 95, 10, Side::Buy)).unwrap();
    book.add_order(order(3, 92, 10, Side::Buy)).unwrap();
    let trades = book.add_order(order(4, 91, 35, Side::Sell)).unwrap();
    assert_eq!(trades, vec![trade(95, 10, 2, 4), trade(92, 10, 3, 4)]);
    assert_eq!(book.level(Side::Sell, 91), vec![order(4, 91, 15, Side::Sell)]);
    assert_eq!(book.best_bid(), Some(90));
    assert_eq!(book.best_ask(), Some(91));
}

#[test]
fn quantity_is_conserved() {
    let mut book = OrderBook::new();
    book.add_order(order(1, 50, 7, Side::Sell)).unwrap();
    book.add_order(order(2, 51, 8, Side::Sell)).unwrap();
    let trades = book.add_order(order(3, 60, 20, Side::Buy)).unwrap();
    let traded: u64 = trades.iter().map(|t| t.quantity).sum();
    let resting: u64 = book.level(Side::Buy, 60).iter().map(|o| o.quantity).sum();
    assert_eq!(traded, 15);
    assert_eq!(resting, 5);
    assert_eq!(traded + resting, 20);
}

#[test]
fn book_never_crossed_after_each_order() {
    let mut book = OrderBook::new();
    let prices = [100, 103, 98, 101, 99, 104, 97, 102, 100, 96];
    for (k, p) in prices.iter().enumerate() {
        let side = if k % 2 == 0 { Side::Buy } else { Side::Sell };
        book.add_order(order(k as u64, *p, 3 + k as u64, side)).unwrap();
        if let (Some(b), Some(a)) = (book.best_bid(), book.best_ask()) {
            assert!(b < a);
        }
    }
}

#[test]
fn empty_opposite_side_rests_whole_order() {
    let mut book = OrderBook::new();
    book.add_order(order(1, 70, 4, Side::Sell)).unwrap();
    let trades = book.add_order(order(2, 75, 9, Side::Sell)).unwrap();
    assert!(trades.is_empty());
    assert_eq!(book.level(Side::Sell, 75), vec![order(2, 75, 9, Side::Sell)]);
    assert_eq!(book.best_ask(), Some(70));
}

#[test]
fn opposite_of_side() {
    assert_eq!(Side::Buy.opposite(), Side::Sell);
    assert_eq!(Side::Sell.opposite(), Side::Buy);
    assert!(order(1, 1, 1, Side::Buy).is_valid());
    assert!(!order(1, 1, 0, Side::Buy).is_valid());
}

#[test]
fn bid_level_keeps_arrival_order_and_new_level_sorts_in() {
    let mut book = OrderBook::new();
    book.add_order(order(1, 100, 5, Side::Buy)).unwrap();
    book.add_order(order(2, 98, 5, Side::Buy)).unwrap();
    book.add_order(order(3, 100, 5, Side::Buy)).unwrap();
    book.add_order(order(4, 99, 5, Side::Buy)).unwrap();
    assert_eq!(
        book.level(Side::Buy, 100),
        vec![order(1, 100, 5, Side::Buy), order(3, 100, 5, Side::Buy)]
    );
    let trades = book.add_order(order(5, 99, 12, Side::Sell)).unwrap();
    assert_eq!(trades, vec![trade(100, 5, 1, 5), trade(100, 5, 3, 5), trade(99, 2, 4, 5)]);
    assert!(book.level(Side::Buy, 100).is_empty());
    assert_eq!(book.level(Side::Buy, 99), vec![order(4, 99, 3, Side::Buy)]);
    assert_eq!(book.best_bid(), Some(99));
    assert_eq!(book.best_ask(), None);
}
