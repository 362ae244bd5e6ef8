//! The order book: both sides, and the operations on them.

use crate::laws::law_cancel_keeps_book_uncrossed;
use crate::laws::law_submit_keeps_book_uncrossed;
use crate::model::ranks_before;
use crate::model::BookView;
use crate::order::Order;
use crate::order::OrderSide;
use crate::side_book::SideBook;
use uuid::Uuid;
use vstd::prelude::*;

verus! {

/// A limit order book for one instrument, matching by price and then by time
/// of arrival. Its view is the [`BookView`] of its resting orders.
#[derive(Clone)]
pub struct OrderBook {
    bids: SideBook,
    asks: SideBook,
}

impl View for OrderBook {
    type V = BookView;

    closed spec fn view(&self) -> BookView {
        BookView { bids: self.bids@, asks: self.asks@ }
    }
}

impl OrderBook {
    /// The invariant of the book: its two sides are well formed, each holds
    /// the orders of its side, and the book is not crossed. Every book made by
    /// [`OrderBook::new`] and changed by the operations below has it.
    pub closed spec fn wf(&self) -> bool {
        &&& self.bids.wf()
        &&& self.asks.wf()
        &&& self.bids.side() == OrderSide::Buy
        &&& self.asks.side() == OrderSide::Sell
        &&& self@.uncrossed()
    }

    /// A well-formed book has a valid view.
    pub proof fn lemma_valid(&self)
        requires
            self.wf(),
        ensures
            self@.valid(),
    {
        self.bids.lemma_valid();
        self.asks.lemma_valid();
    }

    /// The book without orders.
    pub fn new() -> (book: OrderBook)
        ensures
            book.wf(),
            book@.valid(),
            book@ == BookView::empty(),
    {
        OrderBook { bids: SideBook::new(OrderSide::Buy), asks: SideBook::new(OrderSide::Sell) }
    }

    /// Submits a limit order. It trades against the other side while its
    /// price crosses the best price there and quantity is left, oldest order
    /// first at each price; what is left of it then rests on its own side,
    /// behind the orders already resting at its price.
    ///
    /// Returns one record for each resting order that traded, in the order in
    /// which they traded. A record has the identifier, side and price of the
    /// resting order, and as quantity the amount executed against it, not
    /// what is left of it.
    pub fn submit_order(&mut self, order: Order) -> (trades: Vec<Order>)
        requires
            old(self).wf(),
        ensures
            final(self).wf(),
            final(self)@.valid(),
            final(self)@ == old(self)@.submit(order),
            trades@ == old(self)@.trades_for(order),
    {
        proof {
            self.lemma_valid();
            law_submit_keeps_book_uncrossed(self@, order);
        }
        match order.side {
            OrderSide::Buy => {
                let (trades, left) = self.asks.take(order.price, order.quantity);
                self.bids.rest(order.id, order.price, left);
                trades
            },
            OrderSide::Sell => {
                let (trades, left) = self.bids.take(order.price, order.quantity);
                self.asks.rest(order.id, order.price, left);
                trades
            },
        }
    }

    /// Cancels the resting order with the identifier `order_id`, and says
    /// whether there was one. Bids are searched before asks, each side in
    /// priority order, and the first order found is removed; identifiers are
    /// meant to be unique, so there is at most one. Without such an order the
    /// book stays as it is.
    pub fn cancel_order(&mut self, order_id: Uuid) -> (found: bool)
        requires
            old(self).wf(),
        ensures
            final(self).wf(),
            final(self)@.valid(),
            found == old(self)@.holds(order_id),
            final(self)@ == old(self)@.cancel(order_id),
    {
        proof {
            self.lemma_valid();
            law_cancel_keeps_book_uncrossed(self@, order_id);
        }
        if self.bids.cancel(&order_id) {
            true
        } else {
            self.asks.cancel(&order_id)
        }
    }

    /// The resting orders: the bids from the highest price down, the asks from
    /// the lowest price up, and at each price the order that arrived first in
    /// front.
    pub fn get_order_book(&self) -> (sides: (Vec<Order>, Vec<Order>))
        requires
            self.wf(),
        ensures
            sides.0@ == self@.bids,
            sides.1@ == self@.asks,
            forall|i: int, j: int|
                0 <= i < j < sides.0@.len() ==> sides.0@[i].price >= sides.0@[j].price,
            forall|i: int, j: int|
                0 <= i < j < sides.1@.len() ==> sides.1@[i].price <= sides.1@[j].price,
    {
        let bids = self.bids.orders();
        let asks = self.asks.orders();
        proof {
            self.lemma_valid();
            assert forall|i: int, j: int| 0 <= i < j < bids@.len() implies bids@[i].price
                >= bids@[j].price by {
                assert(!ranks_before(OrderSide::Buy, bids@[j].price, bids@[i].price));
            }
            assert forall|i: int, j: int| 0 <= i < j < asks@.len() implies asks@[i].price
                <= asks@[j].price by {
                assert(!ranks_before(OrderSide::Sell, asks@[j].price, asks@[i].price));
            }
        }
        (bids, asks)
    }

    /// The highest price at which a bid rests, if any does.
    pub fn best_bid(&self) -> (price: Option<u64>)
        requires
            self.wf(),
        ensures
            match price {
                Some(p) => self@.bids.len() > 0 && self@.bids[0].price == p,
                None => self@.bids.len() == 0,
            },
    {
        self.bids.best_price()
    }

    /// The lowest price at which an ask rests, if any does.
    pub fn best_ask(&self) -> (price: Option<u64>)
        requires
            self.wf(),
        ensures
            match price {
                Some(p) => self@.asks.len() > 0 && self@.asks[0].price == p,
                None => self@.asks.len() == 0,
            },
    {
        self.asks.best_price()
    }
}

} // verus!
