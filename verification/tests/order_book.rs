use clob::Order;
use clob::OrderBook;
use clob::OrderSide;
use uuid::Uuid;

fn id(n: u128) -> Uuid {
    Uuid::from_u128(n)
}

fn buy(n: u128, price: u64, quantity: u64) -> Order {
    Order { id: id(n), side: OrderSide::Buy, price, quantity }
}

fn sell(n: u128, price: u64, quantity: u64) -> Order {
    Order { id: id(n), side: OrderSide::Sell, price, quantity }
}

fn total(orders: &[Order]) -> u64 {
    orders.iter().map(|o| o.quantity).sum()
}

#[test]
fn new_book_is_empty() {
    let book = OrderBook::new();
    let (bids, asks) = book.get_order_book();
    assert!(bids.is_empty());
    assert!(asks.is_empty());
    assert_eq!(book.best_bid(), None);
    assert_eq!(book.best_ask(), None);
}

#[test]
fn buy_into_empty_book_rests() {
    let mut book = OrderBook::new();
    let trades = book.submit_order(buy(1, 10, 5));
    assert!(trades.is_empty());
    let (bids, asks) = book.get_order_book();
    assert_eq!(bids, vec![buy(1, 10, 5)]);
    assert!(asks.is_empty());
}

#[test]
fn sell_into_empty_book_rests() {
    let mut book = OrderBook::new();
    let trades = book.submit_order(sell(1, 10, 5));
    assert!(trades.is_empty());
    let (bids, asks) = book.get_order_book();
    assert!(bids.is_empty());
    assert_eq!(asks, vec![sell(1, 10, 5)]);
}

#[test]
fn buy_takes_smaller_ask_and_rests_remainder() {
    let mut book = OrderBook::new();
    assert!(book.submit_order(sell(1, 9, 3)).is_empty());
    let trades = book.submit_order(buy(2, 10, 5));
    assert_eq!(trades, vec![sell(1, 9, 3)]);
    let (bids, asks) = book.get_order_book();
    assert_eq!(bids, vec![buy(2, 10, 2)]);
    assert!(asks.is_empty());
    assert_eq!(book.best_ask(), None);
    assert_eq!(book.best_bid(), Some(10));
}

#[test]
fn buy_below_best_ask_does_not_trade() {
    let mut book = OrderBook::new();
    assert!(book.submit_order(sell(1, 9, 10)).is_empty());
    let trades = book.submit_order(buy(2, 8, 5));
    assert!(trades.is_empty());
    let (bids, asks) = book.get_order_book();
    assert_eq!(bids, vec![buy(2, 8, 5)]);
    assert_eq!(asks, vec![sell(1, 9, 10)]);
}

#[test]
fn sell_consumes_bids_in_arrival_order() {
    let mut book = OrderBook::new();
    assert!(book.submit_order(buy(1, 10, 4)).is_empty());
    assert!(book.submit_order(buy(2, 10, 4)).is_empty());
    let trades = book.submit_order(sell(3, 10, 5));
    assert_eq!(trades, vec![buy(1, 10, 4), buy(2, 10, 1)]);
    let (bids, asks) = book.get_order_book();
    assert_eq!(bids, vec![buy(2, 10, 3)]);
    assert!(asks.is_empty());
}

#[test]
fn trade_record_carries_executed_quantity() {
    let mut book = OrderBook::new();
    book.submit_order(sell(1, 9, 10));
    let trades = book.submit_order(buy(2, 9, 4));
    assert_eq!(trades.len(), 1);
    assert_eq!(trades[0].id, id(1));
    assert_eq!(trades[0].side, OrderSide::Sell);
    assert_eq!(trades[0].price, 9);
    assert_eq!(trades[0].quantity, 4);
    let (_, asks) = book.get_order_book();
    assert_eq!(asks, vec![sell(1, 9, 6)]);
}

#[test]
fn exact_fill_leaves_nothing() {
    let mut book = OrderBook::new();
    book.submit_order(sell(1, 9, 5));
    let trades = book.submit_order(buy(2, 9, 5));
    assert_eq!(trades, vec![sell(1, 9, 5)]);
    let (bids, asks) = book.get_order_book();
    assert!(bids.is_empty());
    assert!(asks.is_empty());
}

#[test]
fn buy_at_the_ask_price_trades() {
    let mut book = OrderBook::new();
    book.submit_order(sell(1, 10, 1));
    let trades = book.submit_order(buy(2, 10, 1));
    assert_eq!(trades, vec![sell(1, 10, 1)]);
}

#[test]
fn sell_above_best_bid_does_not_trade() {
    let mut book = OrderBook::new();
    book.submit_order(buy(1, 10, 7));
    let trades = book.submit_order(sell(2, 11, 3));
    assert!(trades.is_empty());
    let (bids, asks) = book.get_order_book();
    assert_eq!(bids, vec![buy(1, 10, 7)]);
    assert_eq!(asks, vec![sell(2, 11, 3)]);
}

#[test]
fn buy_sweeps_asks_from_the_lowest_price() {
    let mut book = OrderBook::new();
    book.submit_order(sell(1, 12, 2));
    book.submit_order(sell(2, 10, 2));
    book.submit_order(sell(3, 11, 2));
    book.submit_order(sell(4, 13, 2));
    let trades = book.submit_order(buy(5, 12, 5));
    assert_eq!(trades, vec![sell(2, 10, 2), sell(3, 11, 2), sell(1, 12, 1)]);
    let (bids, asks) = book.get_order_book();
    assert!(bids.is_empty());
    assert_eq!(asks, vec![sell(1, 12, 1), sell(4, 13, 2)]);
}

#[test]
fn sell_sweeps_bids_from_the_highest_price() {
    let mut book = OrderBook::new();
    book.submit_order(buy(1, 8, 2));
    book.submit_order(buy(2, 10, 2));
    book.submit_order(buy(3, 9, 2));
    book.submit_order(buy(4, 7, 2));
    let trades = book.submit_order(sell(5, 8, 7));
    assert_eq!(trades, vec![buy(2, 10, 2), buy(3, 9, 2), buy(1, 8, 2)]);
    let (bids, asks) = book.get_order_book();
    assert_eq!(bids, vec![buy(4, 7, 2)]);
    assert_eq!(asks, vec![sell(5, 8, 1)]);
}

#[test]
fn order_without_quantity_changes_nothing() {
    let mut book = OrderBook::new();
    book.submit_order(sell(1, 9, 3));
    let trades = book.submit_order(buy(2, 10, 0));
    assert!(trades.is_empty());
    let (bids, asks) = book.get_order_book();
    assert!(bids.is_empty());
    assert_eq!(asks, vec![sell(1, 9, 3)]);
}

#[test]
fn partly_filled_order_keeps_its_place() {
    let mut book = OrderBook::new();
    book.submit_order(buy(1, 10, 4));
    book.submit_order(buy(2, 10, 4));
    assert_eq!(book.submit_order(sell(3, 10, 1)), vec![buy(1, 10, 1)]);
    book.submit_order(buy(4, 10, 4));
    let (bids, _) = book.get_order_book();
    assert_eq!(bids, vec![buy(1, 10, 3), buy(2, 10, 4), buy(4, 10, 4)]);
    let trades = book.submit_order(sell(5, 10, 8));
    assert_eq!(trades, vec![buy(1, 10, 3), buy(2, 10, 4), buy(4, 10, 1)]);
}

#[test]
fn quantity_is_conserved() {
    let mut book = OrderBook::new();
    book.submit_order(sell(1, 10, 3));
    book.submit_order(sell(2, 10, 4));
    book.submit_order(sell(3, 11, 5));
    book.submit_order(buy(4, 5, 6));
    let (bids_before, asks_before) = book.get_order_book();
    let incoming = buy(5, 11, 20);
    let trades = book.submit_order(incoming);
    let (bids, asks) = book.get_order_book();
    assert_eq!(total(&trades), 12);
    assert_eq!(total(&asks_before) - total(&asks), total(&trades));
    let rested = total(&bids) - total(&bids_before);
    assert_eq!(rested, 8);
    assert_eq!(total(&trades) + rested, incoming.quantity);
}

#[test]
fn quantity_is_conserved_on_a_partial_fill() {
    let mut book = OrderBook::new();
    book.submit_order(buy(1, 10, 3));
    book.submit_order(buy(2, 9, 9));
    let trades = book.submit_order(sell(3, 9, 7));
    assert_eq!(trades, vec![buy(1, 10, 3), buy(2, 9, 4)]);
    assert_eq!(total(&trades), 7);
    let (bids, asks) = book.get_order_book();
    assert_eq!(bids, vec![buy(2, 9, 5)]);
    assert!(asks.is_empty());
}

#[test]
fn book_is_never_crossed() {
    let mut book = OrderBook::new();
    let orders = vec![
        buy(1, 10, 5),
        sell(2, 12, 5),
        buy(3, 12, 2),
        sell(4, 9, 4),
        buy(5, 11, 7),
        sell(6, 11, 9),
        sell(7, 10, 1),
        buy(8, 13, 3),
    ];
    for (n, order) in orders.into_iter().enumerate() {
        book.submit_order(order);
        if n == 4 {
            book.cancel_order(id(2));
        }
        if let (Some(bid), Some(ask)) = (book.best_bid(), book.best_ask()) {
            assert!(bid < ask);
        }
        let (bids, asks) = book.get_order_book();
        for b in &bids {
            for a in &asks {
                assert!(b.price < a.price);
            }
            assert!(b.quantity > 0);
            assert_eq!(b.side, OrderSide::Buy);
        }
        for a in &asks {
            assert!(a.quantity > 0);
            assert_eq!(a.side, OrderSide::Sell);
        }
    }
    let (bids, asks) = book.get_order_book();
    assert_eq!(bids, vec![buy(8, 13, 1)]);
    assert!(asks.is_empty());
}

#[test]
fn first_submitted_is_matched_first() {
    let mut book = OrderBook::new();
    book.submit_order(sell(1, 10, 2));
    book.submit_order(sell(2, 10, 2));
    let trades = book.submit_order(buy(3, 10, 2));
    assert_eq!(trades, vec![sell(1, 10, 2)]);
    let (_, asks) = book.get_order_book();
    assert_eq!(asks, vec![sell(2, 10, 2)]);
}

#[test]
fn snapshot_is_in_priority_order() {
    let mut book = OrderBook::new();
    book.submit_order(buy(1, 5, 1));
    book.submit_order(buy(2, 7, 1));
    book.submit_order(buy(3, 5, 2));
    book.submit_order(buy(4, 6, 1));
    book.submit_order(buy(5, 7, 2));
    book.submit_order(sell(6, 12, 1));
    book.submit_order(sell(7, 10, 1));
    book.submit_order(sell(8, 12, 2));
    book.submit_order(sell(9, 11, 1));
    book.submit_order(sell(10, 10, 2));
    let (bids, asks) = book.get_order_book();
    assert_eq!(bids, vec![buy(2, 7, 1), buy(5, 7, 2), buy(4, 6, 1), buy(1, 5, 1), buy(3, 5, 2)]);
    assert_eq!(
        asks,
        vec![sell(7, 10, 1), sell(10, 10, 2), sell(9, 11, 1), sell(6, 12, 1), sell(8, 12, 2)]
    );
    for pair in bids.windows(2) {
        assert!(pair[0].price >= pair[1].price);
    }
    for pair in asks.windows(2) {
        assert!(pair[0].price <= pair[1].price);
    }
}

#[test]
fn snapshot_changes_nothing() {
    let mut book = OrderBook::new();
    book.submit_order(buy(1, 5, 1));
    book.submit_order(sell(2, 6, 1));
    let first = book.get_order_book();
    let second = book.get_order_book();
    assert_eq!(first, second);
}

#[test]
fn cancel_twice_finds_once() {
    let mut book = OrderBook::new();
    book.submit_order(buy(1, 10, 5));
    assert!(book.cancel_order(id(1)));
    assert!(!book.cancel_order(id(1)));
    let (bids, asks) = book.get_order_book();
    assert!(bids.is_empty());
    assert!(asks.is_empty());
}

#[test]
fn cancel_unknown_finds_nothing() {
    let mut book = OrderBook::new();
    assert!(!book.cancel_order(id(7)));
    book.submit_order(buy(1, 10, 5));
    book.submit_order(sell(2, 11, 5));
    assert!(!book.cancel_order(id(7)));
    let (bids, asks) = book.get_order_book();
    assert_eq!(bids, vec![buy(1, 10, 5)]);
    assert_eq!(asks, vec![sell(2, 11, 5)]);
}

#[test]
fn cancel_removes_an_ask() {
    let mut book = OrderBook::new();
    book.submit_order(sell(1, 11, 5));
    book.submit_order(sell(2, 11, 6));
    book.submit_order(sell(3, 12, 7));
    assert!(book.cancel_order(id(2)));
    let (_, asks) = book.get_order_book();
    assert_eq!(asks, vec![sell(1, 11, 5), sell(3, 12, 7)]);
}

#[test]
fn cancel_of_last_order_at_a_price_removes_the_price() {
    let mut book = OrderBook::new();
    book.submit_order(buy(1, 10, 5));
    book.submit_order(buy(2, 9, 5));
    assert_eq!(book.best_bid(), Some(10));
    assert!(book.cancel_order(id(1)));
    assert_eq!(book.best_bid(), Some(9));
    let trades = book.submit_order(sell(3, 10, 1));
    assert!(trades.is_empty());
    let (bids, asks) = book.get_order_book();
    assert_eq!(bids, vec![buy(2, 9, 5)]);
    assert_eq!(asks, vec![sell(3, 10, 1)]);
}

#[test]
fn cancel_in_the_middle_keeps_the_others_in_order() {
    let mut book = OrderBook::new();
    book.submit_order(buy(1, 10, 1));
    book.submit_order(buy(2, 10, 2));
    book.submit_order(buy(3, 10, 3));
    assert!(book.cancel_order(id(2)));
    let (bids, _) = book.get_order_book();
    assert_eq!(bids, vec![buy(1, 10, 1), buy(3, 10, 3)]);
    let trades = book.submit_order(sell(4, 10, 2));
    assert_eq!(trades, vec![buy(1, 10, 1), buy(3, 10, 1)]);
}

#[test]
fn cancelled_order_does_not_trade() {
    let mut book = OrderBook::new();
    book.submit_order(sell(1, 10, 5));
    assert!(book.cancel_order(id(1)));
    let trades = book.submit_order(buy(2, 10, 5));
    assert!(trades.is_empty());
    let (bids, asks) = book.get_order_book();
    assert_eq!(bids, vec![buy(2, 10, 5)]);
    assert!(asks.is_empty());
}

#[test]
fn filled_order_cannot_be_cancelled() {
    let mut book = OrderBook::new();
    book.submit_order(sell(1, 10, 5));
    book.submit_order(buy(2, 10, 5));
    assert!(!book.cancel_order(id(1)));
    assert!(!book.cancel_order(id(2)));
}

#[test]
fn cancel_tells_identifiers_apart() {
    let mut book = OrderBook::new();
    book.submit_order(buy(1, 10, 5));
    book.submit_order(buy(2, 10, 5));
    assert!(!book.cancel_order(id(3)));
    assert!(book.cancel_order(id(2)));
    let (bids, _) = book.get_order_book();
    assert_eq!(bids, vec![buy(1, 10, 5)]);
}

#[test]
fn cancel_with_a_shared_identifier_takes_the_bid_first() {
    let mut book = OrderBook::new();
    book.submit_order(buy(1, 9, 5));
    book.submit_order(buy(1, 10, 5));
    book.submit_order(sell(1, 12, 5));
    assert!(book.cancel_order(id(1)));
    let (bids, asks) = book.get_order_book();
    assert_eq!(bids, vec![buy(1, 9, 5)]);
    assert_eq!(asks, vec![sell(1, 12, 5)]);
    assert!(book.cancel_order(id(1)));
    assert!(book.cancel_order(id(1)));
    assert!(!book.cancel_order(id(1)));
}

#[test]
fn best_prices_are_the_highest_bid_and_the_lowest_ask() {
    let mut book = OrderBook::new();
    book.submit_order(buy(1, 5, 1));
    book.submit_order(buy(2, 7, 1));
    book.submit_order(buy(3, 6, 1));
    book.submit_order(sell(4, 12, 1));
    book.submit_order(sell(5, 10, 1));
    book.submit_order(sell(6, 11, 1));
    assert_eq!(book.best_bid(), Some(7));
    assert_eq!(book.best_ask(), Some(10));
}

#[test]
fn extreme_prices_and_quantities() {
    let mut book = OrderBook::new();
    book.submit_order(sell(1, u64::MAX, u64::MAX));
    book.submit_order(buy(2, 0, u64::MAX));
    let (bids, asks) = book.get_order_book();
    assert_eq!(bids, vec![buy(2, 0, u64::MAX)]);
    assert_eq!(asks, vec![sell(1, u64::MAX, u64::MAX)]);
    let trades = book.submit_order(buy(3, u64::MAX, u64::MAX));
    assert_eq!(trades, vec![sell(1, u64::MAX, u64::MAX)]);
    let (bids, asks) = book.get_order_book();
    assert_eq!(bids, vec![buy(2, 0, u64::MAX)]);
    assert!(asks.is_empty());
}

#[test]
fn cloned_book_is_independent() {
    let mut book = OrderBook::new();
    book.submit_order(buy(1, 10, 5));
    let mut copy = book.clone();
    assert!(copy.cancel_order(id(1)));
    let (bids, _) = book.get_order_book();
    assert_eq!(bids, vec![buy(1, 10, 5)]);
    let (bids, _) = copy.get_order_book();
    assert!(bids.is_empty());
}
