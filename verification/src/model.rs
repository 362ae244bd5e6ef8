//! The mathematical model of the book: resting orders as sequences in priority
//! order, and what submitting and cancelling do to them.

use crate::order::Order;
use crate::order::OrderSide;
use uuid::Uuid;
use vstd::prelude::*;

verus! {

/// On the resting side `side`, price `a` has priority over price `b`: the
/// higher bid, the lower ask.
pub open spec fn ranks_before(side: OrderSide, a: u64, b: u64) -> bool {
    match side {
        OrderSide::Buy => a > b,
        OrderSide::Sell => a < b,
    }
}

/// An incoming order of side `taker` with limit `limit` may trade at the
/// resting price `price`: a buy at or below its limit, a sell at or above it.
pub open spec fn crosses(taker: OrderSide, limit: u64, price: u64) -> bool {
    match taker {
        OrderSide::Buy => price <= limit,
        OrderSide::Sell => price >= limit,
    }
}

/// No order of `s` stands behind one of a worse price.
pub open spec fn in_priority_order(s: Seq<Order>, side: OrderSide) -> bool {
    forall|i: int, j: int| 0 <= i < j < s.len() ==> !ranks_before(side, s[j].price, s[i].price)
}

/// `s` can be one side of a book: its orders are of side `side`, open, and in
/// priority order.
pub open spec fn resting_valid(s: Seq<Order>, side: OrderSide) -> bool {
    &&& forall|i: int| 0 <= i < s.len() ==> (#[trigger] s[i]).side == side && s[i].quantity > 0
    &&& in_priority_order(s, side)
}

/// No order of `own`, a side of `side`, could trade with an order of `other`,
/// the side opposite: the bids are below the asks.
pub open spec fn apart(side: OrderSide, own: Seq<Order>, other: Seq<Order>) -> bool {
    forall|i: int, j: int|
        #![trigger own[i], other[j]]
        0 <= i < own.len() && 0 <= j < other.len() ==> !crosses(
            side,
            own[i].price,
            other[j].price,
        )
}

/// The sum of the quantities of `s`.
pub open spec fn total_quantity(s: Seq<Order>) -> nat
    decreases s.len(),
{
    if s.len() == 0 {
        0
    } else {
        s[0].quantity as nat + total_quantity(s.drop_first())
    }
}

/// What matching an incoming order against one side gives.
pub struct Fill {
    /// One record for each resting order that traded, in the order in which
    /// they traded: the resting order with the executed amount as quantity.
    pub trades: Seq<Order>,
    /// The side after the match.
    pub resting: Seq<Order>,
    /// What is left of the incoming quantity.
    pub left: u64,
}

/// Matches `quantity` units of an incoming order of side `taker` and limit
/// `limit` against the side `resting`, front first.
///
/// The front order trades while quantity is left and its price crosses the
/// limit. It trades the smaller of the two quantities. A front order that is
/// used up leaves; one that is not keeps its place with what is left of it.
pub open spec fn fill(resting: Seq<Order>, taker: OrderSide, limit: u64, quantity: u64) -> Fill
    decreases resting.len(),
{
    if quantity == 0 || resting.len() == 0 || !crosses(taker, limit, resting[0].price) {
        Fill { trades: Seq::empty(), resting, left: quantity }
    } else if resting[0].quantity <= quantity {
        let rest = fill(
            resting.drop_first(),
            taker,
            limit,
            (quantity - resting[0].quantity) as u64,
        );
        Fill { trades: seq![resting[0]] + rest.trades, resting: rest.resting, left: rest.left }
    } else {
        Fill {
            trades: seq![resting[0].with_quantity(quantity)],
            resting: resting.update(
                0,
                resting[0].with_quantity((resting[0].quantity - quantity) as u64),
            ),
            left: 0,
        }
    }
}

/// Where an order arriving at `price` comes to stand in `s`: behind every
/// order that its price does not outrank, so behind all of its own price.
pub open spec fn arrival_index(s: Seq<Order>, side: OrderSide, price: u64) -> int
    decreases s.len(),
{
    if s.len() == 0 || ranks_before(side, price, s[0].price) {
        0
    } else {
        1 + arrival_index(s.drop_first(), side, price)
    }
}

/// `s` with the arriving order `o` at its place.
pub open spec fn enqueue(s: Seq<Order>, o: Order) -> Seq<Order> {
    s.insert(arrival_index(s, o.side, o.price), o)
}

/// The index of the first order of `s` with identifier `id`, or the length of
/// `s` if there is none.
pub open spec fn first_with_id(s: Seq<Order>, id: Uuid) -> int
    decreases s.len(),
{
    if s.len() == 0 || s[0].id == id {
        0
    } else {
        1 + first_with_id(s.drop_first(), id)
    }
}

/// Some order of `s` has the identifier `id`.
pub open spec fn holds_id(s: Seq<Order>, id: Uuid) -> bool {
    first_with_id(s, id) < s.len()
}

/// `s` without its first order of identifier `id`.
pub open spec fn without_id(s: Seq<Order>, id: Uuid) -> Seq<Order> {
    if holds_id(s, id) {
        s.remove(first_with_id(s, id))
    } else {
        s
    }
}

/// How many orders of `s` have the identifier `id`.
pub open spec fn occurrences(s: Seq<Order>, id: Uuid) -> nat
    decreases s.len(),
{
    if s.len() == 0 {
        0
    } else {
        (if s[0].id == id { 1nat } else { 0nat }) + occurrences(s.drop_first(), id)
    }
}

/// The resting orders of a book. Each side is in priority order: best price
/// first, and among orders of one price the one that arrived first.
pub struct BookView {
    pub bids: Seq<Order>,
    pub asks: Seq<Order>,
}

impl BookView {
    /// The book without orders.
    pub open spec fn empty() -> BookView {
        BookView { bids: Seq::empty(), asks: Seq::empty() }
    }

    /// The side on which orders of side `side` rest.
    pub open spec fn side(self, side: OrderSide) -> Seq<Order> {
        match side {
            OrderSide::Buy => self.bids,
            OrderSide::Sell => self.asks,
        }
    }

    /// Every bid is below every ask.
    pub open spec fn uncrossed(self) -> bool {
        apart(OrderSide::Buy, self.bids, self.asks)
    }

    /// What holds of a book between operations: both sides are valid and the
    /// book is not crossed.
    pub open spec fn valid(self) -> bool {
        &&& resting_valid(self.bids, OrderSide::Buy)
        &&& resting_valid(self.asks, OrderSide::Sell)
        &&& self.uncrossed()
    }

    /// The match of the incoming order `o` against the other side.
    pub open spec fn fill_for(self, o: Order) -> Fill {
        fill(self.side(o.side.opposite()), o.side, o.price, o.quantity)
    }

    /// The trades that submitting `o` produces.
    pub open spec fn trades_for(self, o: Order) -> Seq<Order> {
        self.fill_for(o).trades
    }

    /// The book after `o` was submitted: the other side after the match, and
    /// on the order's own side what is left of it, if anything is.
    pub open spec fn submit(self, o: Order) -> BookView {
        let f = self.fill_for(o);
        let own = if f.left > 0 {
            enqueue(self.side(o.side), o.with_quantity(f.left))
        } else {
            self.side(o.side)
        };
        match o.side {
            OrderSide::Buy => BookView { bids: own, asks: f.resting },
            OrderSide::Sell => BookView { bids: f.resting, asks: own },
        }
    }

    /// How many resting orders have the identifier `id`.
    pub open spec fn count(self, id: Uuid) -> nat {
        occurrences(self.bids, id) + occurrences(self.asks, id)
    }

    /// Some resting order has the identifier `id`.
    pub open spec fn holds(self, id: Uuid) -> bool {
        holds_id(self.bids, id) || holds_id(self.asks, id)
    }

    /// The book after the order `id` was cancelled: without the first bid of
    /// that identifier, or, if no bid has it, without the first such ask.
    pub open spec fn cancel(self, id: Uuid) -> BookView {
        if holds_id(self.bids, id) {
            BookView { bids: without_id(self.bids, id), asks: self.asks }
        } else {
            BookView { bids: self.bids, asks: without_id(self.asks, id) }
        }
    }
}

/// An operation on the book.
pub enum Operation {
    /// An order is submitted.
    Submit(Order),
    /// The order of an identifier is cancelled.
    Cancel(Uuid),
}

impl BookView {
    /// The book after the operation `op`.
    pub open spec fn apply(self, op: Operation) -> BookView {
        match op {
            Operation::Submit(o) => self.submit(o),
            Operation::Cancel(id) => self.cancel(id),
        }
    }

    /// The book that the operations `ops`, one after the other, make of the
    /// empty book.
    pub open spec fn after(ops: Seq<Operation>) -> BookView
        decreases ops.len(),
    {
        if ops.len() == 0 {
            BookView::empty()
        } else {
            BookView::after(ops.drop_last()).apply(ops.last())
        }
    }
}

/// How many of the operations `ops` submit an order with the identifier `id`.
pub open spec fn submissions(ops: Seq<Operation>, id: Uuid) -> nat
    decreases ops.len(),
{
    if ops.len() == 0 {
        0
    } else {
        submissions(ops.drop_last(), id) + match ops.last() {
            Operation::Submit(o) => if o.id == id {
                1nat
            } else {
                0nat
            },
            Operation::Cancel(_) => 0nat,
        }
    }
}

/// The index of the last of the operations `ops` that submits an order with
/// the identifier `id`, or -1 if none does.
pub open spec fn submitted_at(ops: Seq<Operation>, id: Uuid) -> int
    decreases ops.len(),
{
    if ops.len() == 0 {
        -1
    } else {
        match ops.last() {
            Operation::Submit(o) => if o.id == id {
                ops.len() - 1
            } else {
                submitted_at(ops.drop_last(), id)
            },
            Operation::Cancel(_) => submitted_at(ops.drop_last(), id),
        }
    }
}

/// Of two orders of `s` with the same price, the one in front was submitted
/// first.
pub open spec fn in_arrival_order(s: Seq<Order>, ops: Seq<Operation>) -> bool {
    forall|i: int, j: int|
        #![trigger s[i], s[j]]
        0 <= i < j < s.len() && s[i].price == s[j].price ==> submitted_at(ops, s[i].id)
            < submitted_at(ops, s[j].id)
}

} // verus!
