use clob::side_book::price_crosses;
use clob::Order;
use clob::OrderSide;
use clob::SideBook;
use uuid::Uuid;

fn ask(n: u128, price: u64, quantity: u64) -> Order {
    Order { id: Uuid::from_u128(n), side: OrderSide::Sell, price, quantity }
}

fn bid(n: u128, price: u64, quantity: u64) -> Order {
    Order { id: Uuid::from_u128(n), side: OrderSide::Buy, price, quantity }
}

#[test]
fn opposite_sides() {
    assert_eq!(OrderSide::Buy.opposite(), OrderSide::Sell);
    assert_eq!(OrderSide::Sell.opposite(), OrderSide::Buy);
    assert_eq!(OrderSide::Buy.opposite().opposite(), OrderSide::Buy);
}

#[test]
fn order_with_quantity_keeps_the_rest() {
    let o = ask(4, 17, 9);
    assert_eq!(o.with_quantity(2), ask(4, 17, 2));
    assert!(o.has_id(&Uuid::from_u128(4)));
    assert!(!o.has_id(&Uuid::from_u128(5)));
}

#[test]
fn crossing_prices() {
    assert!(price_crosses(OrderSide::Buy, 10, 9));
    assert!(price_crosses(OrderSide::Buy, 10, 10));
    assert!(!price_crosses(OrderSide::Buy, 10, 11));
    assert!(price_crosses(OrderSide::Sell, 10, 11));
    assert!(price_crosses(OrderSide::Sell, 10, 10));
    assert!(!price_crosses(OrderSide::Sell, 10, 9));
}

#[test]
fn new_side_is_empty() {
    let side = SideBook::new(OrderSide::Sell);
    assert_eq!(side.side(), OrderSide::Sell);
    assert_eq!(side.best_price(), None);
    assert!(side.orders().is_empty());
}

#[test]
fn resting_orders_take_the_side_of_the_book() {
    let mut side = SideBook::new(OrderSide::Buy);
    side.rest(Uuid::from_u128(1), 10, 5);
    assert_eq!(side.orders(), vec![bid(1, 10, 5)]);
}

#[test]
fn resting_without_quantity_does_nothing() {
    let mut side = SideBook::new(OrderSide::Buy);
    side.rest(Uuid::from_u128(1), 10, 0);
    assert!(side.orders().is_empty());
    assert_eq!(side.best_price(), None);
}

#[test]
fn best_ask_is_the_lowest_price() {
    let mut side = SideBook::new(OrderSide::Sell);
    side.rest(Uuid::from_u128(1), 12, 1);
    side.rest(Uuid::from_u128(2), 10, 1);
    side.rest(Uuid::from_u128(3), 11, 1);
    assert_eq!(side.best_price(), Some(10));
    assert_eq!(side.orders(), vec![ask(2, 10, 1), ask(3, 11, 1), ask(1, 12, 1)]);
}

#[test]
fn best_bid_is_the_highest_price() {
    let mut side = SideBook::new(OrderSide::Buy);
    side.rest(Uuid::from_u128(1), 10, 1);
    side.rest(Uuid::from_u128(2), 12, 1);
    side.rest(Uuid::from_u128(3), 11, 1);
    assert_eq!(side.best_price(), Some(12));
    assert_eq!(side.orders(), vec![bid(2, 12, 1), bid(3, 11, 1), bid(1, 10, 1)]);
}

#[test]
fn take_stops_at_the_limit() {
    let mut side = SideBook::new(OrderSide::Sell);
    side.rest(Uuid::from_u128(1), 10, 2);
    side.rest(Uuid::from_u128(2), 11, 2);
    side.rest(Uuid::from_u128(3), 12, 2);
    let (trades, left) = side.take(11, 10);
    assert_eq!(trades, vec![ask(1, 10, 2), ask(2, 11, 2)]);
    assert_eq!(left, 6);
    assert_eq!(side.orders(), vec![ask(3, 12, 2)]);
    assert_eq!(side.best_price(), Some(12));
}

#[test]
fn take_stops_when_the_quantity_is_used_up() {
    let mut side = SideBook::new(OrderSide::Buy);
    side.rest(Uuid::from_u128(1), 10, 2);
    side.rest(Uuid::from_u128(2), 10, 5);
    side.rest(Uuid::from_u128(3), 9, 2);
    let (trades, left) = side.take(0, 4);
    assert_eq!(trades, vec![bid(1, 10, 2), bid(2, 10, 2)]);
    assert_eq!(left, 0);
    assert_eq!(side.orders(), vec![bid(2, 10, 3), bid(3, 9, 2)]);
}

#[test]
fn take_from_an_empty_side_leaves_everything() {
    let mut side = SideBook::new(OrderSide::Sell);
    let (trades, left) = side.take(100, 7);
    assert!(trades.is_empty());
    assert_eq!(left, 7);
}

#[test]
fn take_of_nothing_trades_nothing() {
    let mut side = SideBook::new(OrderSide::Sell);
    side.rest(Uuid::from_u128(1), 10, 2);
    let (trades, left) = side.take(100, 0);
    assert!(trades.is_empty());
    assert_eq!(left, 0);
    assert_eq!(side.orders(), vec![ask(1, 10, 2)]);
}

#[test]
fn cancel_on_a_side_takes_the_best_priced_match() {
    let mut side = SideBook::new(OrderSide::Sell);
    side.rest(Uuid::from_u128(1), 12, 1);
    side.rest(Uuid::from_u128(2), 10, 1);
    side.rest(Uuid::from_u128(1), 11, 1);
    assert!(side.cancel(&Uuid::from_u128(1)));
    assert_eq!(side.orders(), vec![ask(2, 10, 1), ask(1, 12, 1)]);
    assert!(!side.cancel(&Uuid::from_u128(3)));
    assert!(side.cancel(&Uuid::from_u128(1)));
    assert!(!side.cancel(&Uuid::from_u128(1)));
    assert_eq!(side.orders(), vec![ask(2, 10, 1)]);
}

#[test]
fn cancel_empties_a_side() {
    let mut side = SideBook::new(OrderSide::Buy);
    side.rest(Uuid::from_u128(1), 12, 1);
    assert!(side.cancel(&Uuid::from_u128(1)));
    assert_eq!(side.best_price(), None);
    assert!(side.orders().is_empty());
}
