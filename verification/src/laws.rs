//! What holds of the book, whatever is submitted and cancelled.

use crate::facts::lemma_apart_turned;
use crate::facts::lemma_arrival_in_range;
use crate::facts::lemma_arrival_order_insert;
use crate::facts::lemma_arrival_order_remove;
use crate::facts::lemma_arrival_order_rest;
use crate::facts::lemma_arrival_place;
use crate::facts::lemma_fill_conserves;
use crate::facts::lemma_fill_occurrences;
use crate::facts::lemma_fill_shape;
use crate::facts::lemma_fill_valid;
use crate::facts::lemma_first_with_id;
use crate::facts::lemma_occurrences;
use crate::facts::lemma_occurrences_insert;
use crate::facts::lemma_occurrences_remove;
use crate::facts::lemma_remove_sides;
use crate::facts::lemma_submit_sides;
use crate::facts::lemma_submitted_at_range;
use crate::facts::lemma_total_insert;
use crate::model::arrival_index;
use crate::model::enqueue;
use crate::model::first_with_id;
use crate::model::fill;
use crate::model::holds_id;
use crate::model::in_arrival_order;
use crate::model::in_priority_order;
use crate::model::ranks_before;
use crate::model::resting_valid;
use crate::model::submissions;
use crate::model::submitted_at;
use crate::model::total_quantity;
use crate::model::without_id;
use crate::model::BookView;
use crate::model::Operation;
use crate::order::Order;
use crate::order::OrderSide;
use uuid::Uuid;
use vstd::prelude::*;

verus! {

/// In a valid book with orders on both sides the best bid is below the best
/// ask.
pub proof fn law_best_bid_below_best_ask(book: BookView)
    requires
        book.valid(),
        book.bids.len() > 0,
        book.asks.len() > 0,
    ensures
        book.bids[0].price < book.asks[0].price,
{
    let bid = book.bids[0];
    let ask = book.asks[0];
    assert(bid.price < ask.price);
}

/// The book is never crossed: the empty book is valid, and a valid book is
/// valid again after any order was submitted. Both sides then hold open
/// orders of their side in priority order, and every bid is below every ask.
pub proof fn law_submit_keeps_book_uncrossed(book: BookView, o: Order)
    requires
        book.valid(),
    ensures
        BookView::empty().valid(),
        book.submit(o).valid(),
{
    match o.side {
        OrderSide::Buy => {
            lemma_submit_sides(book.bids, book.asks, o);
        },
        OrderSide::Sell => {
            lemma_apart_turned(OrderSide::Buy, book.bids, book.asks);
            lemma_submit_sides(book.asks, book.bids, o);
            let after = book.submit(o);
            lemma_apart_turned(OrderSide::Sell, after.asks, after.bids);
        },
    }
}

/// Cancelling keeps a valid book valid, and so uncrossed.
pub proof fn law_cancel_keeps_book_uncrossed(book: BookView, id: Uuid)
    requires
        book.valid(),
    ensures
        book.cancel(id).valid(),
{
    lemma_first_with_id(book.bids, id);
    lemma_first_with_id(book.asks, id);
    if holds_id(book.bids, id) {
        lemma_remove_sides(OrderSide::Buy, book.bids, book.asks, first_with_id(book.bids, id));
    } else if holds_id(book.asks, id) {
        lemma_apart_turned(OrderSide::Buy, book.bids, book.asks);
        lemma_remove_sides(OrderSide::Sell, book.asks, book.bids, first_with_id(book.asks, id));
        let after = book.cancel(id);
        lemma_apart_turned(OrderSide::Sell, after.asks, after.bids);
    }
}

/// Quantity is conserved. The quantities traded and what is left of the
/// incoming order make up its quantity; the side it trades against loses
/// exactly what is traded; and its own side gains exactly what is left.
pub proof fn law_quantity_conserved(book: BookView, o: Order)
    ensures
        total_quantity(book.trades_for(o)) + book.fill_for(o).left == o.quantity,
        total_quantity(book.submit(o).side(o.side.opposite())) + total_quantity(
            book.trades_for(o),
        ) == total_quantity(book.side(o.side.opposite())),
        total_quantity(book.submit(o).side(o.side)) == total_quantity(book.side(o.side))
            + book.fill_for(o).left,
{
    let own = book.side(o.side);
    let f = book.fill_for(o);
    lemma_fill_conserves(book.side(o.side.opposite()), o.side, o.price, o.quantity);
    if f.left > 0 {
        lemma_arrival_in_range(own, o.side, o.price);
        lemma_total_insert(own, arrival_index(own, o.side, o.price), o.with_quantity(f.left));
    }
}

/// Matching follows priority, and each trade lowers one resting order by what
/// it trades. The trades are against the first orders of the other side, one
/// trade for each and in their order: the record is the resting order with
/// the amount traded, which is no more than the order had. Every matched
/// order but the last is used up and leaves. The last one leaves if it is
/// used up; if not, the incoming order is, and the rest of the last one keeps
/// its place in front of all the others, which stay as they were.
pub proof fn law_matching_follows_priority(book: BookView, o: Order)
    ensures
        ({
            let resting = book.side(o.side.opposite());
            let after = book.submit(o).side(o.side.opposite());
            let trades = book.trades_for(o);
            let n = trades.len() as int;
            &&& n <= resting.len()
            &&& forall|i: int|
                0 <= i < n ==> {
                    &&& #[trigger] trades[i] == resting[i].with_quantity(trades[i].quantity)
                    &&& trades[i].quantity <= resting[i].quantity
                }
            &&& forall|i: int|
                0 <= i < n - 1 ==> (#[trigger] trades[i]).quantity == resting[i].quantity
            &&& after == if n > 0 && trades[n - 1].quantity < resting[n - 1].quantity {
                seq![
                    resting[n - 1].with_quantity(
                        (resting[n - 1].quantity - trades[n - 1].quantity) as u64,
                    ),
                ] + resting.skip(n)
            } else {
                resting.skip(n)
            }
            &&& n > 0 && trades[n - 1].quantity < resting[n - 1].quantity ==> book.fill_for(o).left
                == 0
        }),
{
    lemma_fill_shape(book.side(o.side.opposite()), o.side, o.price, o.quantity);
}

/// Time priority on arrival. An order that comes to rest stands behind every
/// order of its own price, and of any better price, and in front of every
/// order of a worse price. The orders that rested before keep their order.
pub proof fn law_arrival_behind_same_price(s: Seq<Order>, o: Order)
    requires
        in_priority_order(s, o.side),
    ensures
        ({
            let p = arrival_index(s, o.side, o.price);
            let t = enqueue(s, o);
            &&& 0 <= p <= s.len()
            &&& t.len() == s.len() + 1
            &&& t[p] == o
            &&& forall|i: int| 0 <= i < p ==> #[trigger] t[i] == s[i]
            &&& forall|i: int| p <= i < s.len() ==> t[i + 1] == #[trigger] s[i]
            &&& forall|i: int| 0 <= i < s.len() && (#[trigger] s[i]).price == o.price ==> i < p
            &&& forall|i: int|
                0 <= i < s.len() && ranks_before(o.side, (#[trigger] s[i]).price, o.price) ==> i < p
            &&& forall|i: int|
                0 <= i < s.len() && ranks_before(o.side, o.price, (#[trigger] s[i]).price) ==> p
                    <= i
        }),
{
    lemma_arrival_place(s, o.side, o.price);
    let p = arrival_index(s, o.side, o.price);
    assert forall|i: int| 0 <= i < s.len() && (#[trigger] s[i]).price == o.price implies i < p by {
        if i >= p {
            assert(ranks_before(o.side, o.price, s[i].price));
        }
    }
    assert forall|i: int|
        0 <= i < s.len() && ranks_before(o.side, (#[trigger] s[i]).price, o.price) implies i
        < p by {
        if i >= p {
            assert(ranks_before(o.side, o.price, s[i].price));
        }
    }
}

/// Of two orders submitted one after the other at the same price and on the
/// same side, the second comes to stand directly behind the first, so that by
/// [`law_matching_follows_priority`] the first trades first.
pub proof fn law_second_order_stands_behind_first(book: BookView, a: Order, b: Order)
    requires
        book.valid(),
        a.side == b.side,
        a.price == b.price,
        book.fill_for(a).left > 0,
        book.submit(a).fill_for(b).left > 0,
    ensures
        ({
            let p = arrival_index(book.side(a.side), a.side, a.price);
            let side = book.submit(a).submit(b).side(a.side);
            &&& 0 <= p
            &&& p + 1 < side.len()
            &&& side[p] == a.with_quantity(book.fill_for(a).left)
            &&& side[p + 1] == b.with_quantity(book.submit(a).fill_for(b).left)
        }),
{
    let own = book.side(a.side);
    let first = a.with_quantity(book.fill_for(a).left);
    let second = b.with_quantity(book.submit(a).fill_for(b).left);
    let p = arrival_index(own, a.side, a.price);
    law_submit_keeps_book_uncrossed(book, a);
    let once = book.submit(a).side(a.side);
    assert(once == own.insert(p, first));
    lemma_arrival_place(own, a.side, a.price);
    lemma_arrival_place(once, a.side, a.price);
    let q = arrival_index(once, a.side, a.price);
    assert(once[p] == first);
    if q <= p {
        assert(ranks_before(a.side, a.price, once[p].price));
    }
    if q > p + 1 {
        assert(once[p + 1] == own[p]);
        assert(ranks_before(a.side, a.price, own[p].price));
        assert(!ranks_before(a.side, a.price, once[p + 1].price));
    }
    assert(q == p + 1);
    let twice = book.submit(a).submit(b).side(a.side);
    assert(twice == once.insert(q, second));
}

/// Cancelling twice. If at most one resting order has the identifier, then
/// after it was cancelled no order has it: a second cancel finds nothing and
/// leaves the book as it is.
pub proof fn law_cancel_twice(book: BookView, id: Uuid)
    requires
        book.count(id) <= 1,
    ensures
        !book.cancel(id).holds(id),
        book.cancel(id).cancel(id) == book.cancel(id),
{
    lemma_occurrences(book.bids, id);
    lemma_occurrences(book.asks, id);
    let after = book.cancel(id);
    lemma_occurrences(after.bids, id);
    lemma_occurrences(after.asks, id);
}

/// Cancelling an identifier that no resting order has, as before any order
/// with it was submitted, finds nothing and leaves the book as it is.
pub proof fn law_cancel_unknown(book: BookView, id: Uuid)
    requires
        !book.holds(id),
    ensures
        book.cancel(id) == book,
{
}

/// The order of a snapshot. In a valid book the bids do not rise in price
/// along their sequence and the asks do not fall. Among orders of one price
/// the sequence is the order of arrival: an order arrives behind those of its
/// price ([`law_arrival_behind_same_price`]), and matching and cancelling
/// take orders out without moving the others
/// ([`law_matching_follows_priority`], [`BookView::cancel`]).
pub proof fn law_snapshot_ordering(book: BookView)
    requires
        book.valid(),
    ensures
        forall|i: int, j: int|
            0 <= i < j < book.bids.len() ==> book.bids[i].price >= book.bids[j].price,
        forall|i: int, j: int|
            0 <= i < j < book.asks.len() ==> book.asks[i].price <= book.asks[j].price,
{
    assert forall|i: int, j: int| 0 <= i < j < book.bids.len() implies book.bids[i].price
        >= book.bids[j].price by {
        assert(!ranks_before(OrderSide::Buy, book.bids[j].price, book.bids[i].price));
    }
    assert forall|i: int, j: int| 0 <= i < j < book.asks.len() implies book.asks[i].price
        <= book.asks[j].price by {
        assert(!ranks_before(OrderSide::Sell, book.asks[j].price, book.asks[i].price));
    }
}

/// After any sequence of operations on the empty book the book is valid, and
/// with orders on both sides its best bid is below its best ask.
pub proof fn law_never_crossed(ops: Seq<Operation>)
    ensures
        BookView::after(ops).valid(),
        BookView::after(ops).bids.len() > 0 && BookView::after(ops).asks.len() > 0
            ==> BookView::after(ops).bids[0].price < BookView::after(ops).asks[0].price,
    decreases ops.len(),
{
    let book = BookView::after(ops);
    if ops.len() > 0 {
        let before = BookView::after(ops.drop_last());
        law_never_crossed(ops.drop_last());
        match ops.last() {
            Operation::Submit(o) => {
                law_submit_keeps_book_uncrossed(before, o);
            },
            Operation::Cancel(id) => {
                law_cancel_keeps_book_uncrossed(before, id);
            },
        }
    }
    if book.bids.len() > 0 && book.asks.len() > 0 {
        law_best_bid_below_best_ask(book);
    }
}

/// Submitting an order adds at most that order to those that have an
/// identifier, and cancelling adds none.
pub proof fn law_operations_add_no_identifier(book: BookView, op: Operation, id: Uuid)
    ensures
        book.apply(op).count(id) <= book.count(id) + match op {
            Operation::Submit(o) => if o.id == id {
                1nat
            } else {
                0nat
            },
            Operation::Cancel(_) => 0nat,
        },
{
    match op {
        Operation::Submit(o) => {
            let own = book.side(o.side);
            let f = book.fill_for(o);
            lemma_fill_occurrences(book.side(o.side.opposite()), o.side, o.price, o.quantity, id);
            if f.left > 0 {
                lemma_arrival_in_range(own, o.side, o.price);
                lemma_occurrences_insert(
                    own,
                    arrival_index(own, o.side, o.price),
                    o.with_quantity(f.left),
                    id,
                );
            }
        },
        Operation::Cancel(x) => {
            lemma_first_with_id(book.bids, x);
            lemma_first_with_id(book.asks, x);
            if holds_id(book.bids, x) {
                lemma_occurrences_remove(book.bids, first_with_id(book.bids, x), id);
            } else if holds_id(book.asks, x) {
                lemma_occurrences_remove(book.asks, first_with_id(book.asks, x), id);
            }
        },
    }
}

/// No more orders with an identifier rest than were submitted with it.
pub proof fn law_resting_were_submitted(ops: Seq<Operation>, id: Uuid)
    ensures
        BookView::after(ops).count(id) <= submissions(ops, id),
    decreases ops.len(),
{
    if ops.len() > 0 {
        law_resting_were_submitted(ops.drop_last(), id);
        law_operations_add_no_identifier(BookView::after(ops.drop_last()), ops.last(), id);
    }
}

/// Cancelling is idempotent. After any operations that submitted an
/// identifier at most once, a cancel of it finds a resting order exactly if
/// one has it, and a second cancel finds none and changes nothing. If none
/// of the operations submitted the identifier, already the first cancel finds
/// none.
pub proof fn law_cancel_idempotent(ops: Seq<Operation>, id: Uuid)
    requires
        submissions(ops, id) <= 1,
    ensures
        !BookView::after(ops).cancel(id).holds(id),
        BookView::after(ops).cancel(id).cancel(id) == BookView::after(ops).cancel(id),
        submissions(ops, id) == 0 ==> !BookView::after(ops).holds(id),
{
    let book = BookView::after(ops);
    law_resting_were_submitted(ops, id);
    law_cancel_twice(book, id);
    lemma_occurrences(book.bids, id);
    lemma_occurrences(book.asks, id);
}

/// Submitting an order whose identifier no resting order has keeps two sides
/// in arrival order: the side that the order trades against, and its own side
/// with what is left of it arrived.
proof fn lemma_submit_keeps_arrival_order(
    own: Seq<Order>,
    other: Seq<Order>,
    o: Order,
    before: Seq<Operation>,
)
    requires
        resting_valid(own, o.side),
        resting_valid(other, o.side.opposite()),
        in_arrival_order(own, before),
        in_arrival_order(other, before),
        !holds_id(own, o.id),
        !holds_id(other, o.id),
    ensures
        ({
            let ops = before.push(Operation::Submit(o));
            let f = fill(other, o.side, o.price, o.quantity);
            &&& in_arrival_order(f.resting, ops)
            &&& in_arrival_order(
                if f.left > 0 {
                    enqueue(own, o.with_quantity(f.left))
                } else {
                    own
                },
                ops,
            )
        }),
{
    let ops = before.push(Operation::Submit(o));
    let f = fill(other, o.side, o.price, o.quantity);
    lemma_submitted_after(own, o, before);
    lemma_submitted_after(other, o, before);
    lemma_fill_valid(other, o.side, o.price, o.quantity);
    lemma_arrival_order_rest(other, f.resting, other.len() - f.resting.len(), before, ops);
    if f.left > 0 {
        lemma_arrival_order_insert(own, o.with_quantity(f.left), before, ops);
    } else {
        lemma_arrival_order_rest(own, own, 0, before, ops);
    }
}

/// Cancelling keeps a side in arrival order.
proof fn lemma_cancel_keeps_arrival_order(s: Seq<Order>, x: Uuid, before: Seq<Operation>)
    requires
        in_arrival_order(s, before),
    ensures
        in_arrival_order(s, before.push(Operation::Cancel(x))),
        in_arrival_order(without_id(s, x), before.push(Operation::Cancel(x))),
{
    let ops = before.push(Operation::Cancel(x));
    assert(ops.drop_last() =~= before);
    assert forall|i: int| 0 <= i < s.len() implies submitted_at(ops, (#[trigger] s[i]).id)
        == submitted_at(before, s[i].id) by {}
    lemma_arrival_order_rest(s, s, 0, before, ops);
    lemma_first_with_id(s, x);
    if holds_id(s, x) {
        lemma_arrival_order_remove(s, first_with_id(s, x), before, ops);
    }
}

/// The orders of a side that does not hold the identifier of a newly
/// submitted order were submitted where they were, and before that order.
proof fn lemma_submitted_after(s: Seq<Order>, o: Order, before: Seq<Operation>)
    requires
        !holds_id(s, o.id),
    ensures
        forall|i: int|
            0 <= i < s.len() ==> submitted_at(
                before.push(Operation::Submit(o)),
                (#[trigger] s[i]).id,
            ) == submitted_at(before, s[i].id) && submitted_at(
                before.push(Operation::Submit(o)),
                s[i].id,
            ) < submitted_at(before.push(Operation::Submit(o)), o.id),
{
    let ops = before.push(Operation::Submit(o));
    assert(ops.drop_last() =~= before);
    lemma_first_with_id(s, o.id);
    assert forall|i: int| 0 <= i < s.len() implies submitted_at(ops, (#[trigger] s[i]).id)
        == submitted_at(before, s[i].id) && submitted_at(ops, s[i].id) < submitted_at(
        ops,
        o.id,
    ) by {
        assert(s[i].id != o.id);
        lemma_submitted_at_range(before, s[i].id);
    }
}

/// An operation that submits no order with an identifier held by a book in
/// arrival order leaves both sides in arrival order.
proof fn lemma_operation_keeps_arrival_order(book: BookView, before: Seq<Operation>, op: Operation)
    requires
        book.valid(),
        in_arrival_order(book.bids, before),
        in_arrival_order(book.asks, before),
        op matches Operation::Submit(o) ==> book.count(o.id) == 0,
    ensures
        in_arrival_order(book.apply(op).bids, before.push(op)),
        in_arrival_order(book.apply(op).asks, before.push(op)),
{
    match op {
        Operation::Submit(o) => {
            lemma_occurrences(book.bids, o.id);
            lemma_occurrences(book.asks, o.id);
            match o.side {
                OrderSide::Buy => {
                    lemma_submit_keeps_arrival_order(book.bids, book.asks, o, before);
                },
                OrderSide::Sell => {
                    lemma_submit_keeps_arrival_order(book.asks, book.bids, o, before);
                },
            }
        },
        Operation::Cancel(x) => {
            lemma_cancel_keeps_arrival_order(book.bids, x, before);
            lemma_cancel_keeps_arrival_order(book.asks, x, before);
        },
    }
}

/// Time priority. After any operations that submitted each identifier at most
/// once, resting orders of one price stand in the order in which they were
/// submitted, on both sides. With [`law_matching_follows_priority`], of two
/// orders at one price the one submitted first trades first, and a partly
/// filled order trades before every order submitted after it at its price.
pub proof fn law_equal_prices_in_arrival_order(ops: Seq<Operation>)
    requires
        forall|id: Uuid| submissions(ops, id) <= 1,
    ensures
        in_arrival_order(BookView::after(ops).bids, ops),
        in_arrival_order(BookView::after(ops).asks, ops),
    decreases ops.len(),
{
    if ops.len() > 0 {
        let before = ops.drop_last();
        let op = ops.last();
        let book = BookView::after(before);
        assert forall|id: Uuid| submissions(before, id) <= 1 by {
            assert(submissions(ops, id) <= 1);
        }
        law_equal_prices_in_arrival_order(before);
        law_never_crossed(before);
        match op {
            Operation::Submit(o) => {
                law_resting_were_submitted(before, o.id);
                assert(submissions(ops, o.id) <= 1);
            },
            Operation::Cancel(_) => {},
        }
        lemma_operation_keeps_arrival_order(book, before, op);
        assert(before.push(op) =~= ops);
    }
}

/// The order submitted first trades first. After any operations that
/// submitted each identifier at most once, the trades of an incoming order at
/// one price are against resting orders in the order in which these were
/// submitted.
pub proof fn law_trades_in_arrival_order(ops: Seq<Operation>, o: Order)
    requires
        forall|id: Uuid| submissions(ops, id) <= 1,
    ensures
        in_arrival_order(BookView::after(ops).trades_for(o), ops),
{
    let book = BookView::after(ops);
    let resting = book.side(o.side.opposite());
    let trades = book.trades_for(o);
    law_equal_prices_in_arrival_order(ops);
    lemma_fill_shape(resting, o.side, o.price, o.quantity);
    assert(in_arrival_order(resting, ops));
    assert forall|i: int, j: int|
        #![trigger trades[i], trades[j]]
        0 <= i < j < trades.len() && trades[i].price == trades[j].price implies submitted_at(
        ops,
        trades[i].id,
    ) < submitted_at(ops, trades[j].id) by {
        let a = resting[i];
        let b = resting[j];
        assert(trades[i].id == a.id && trades[i].price == a.price);
        assert(trades[j].id == b.id && trades[j].price == b.price);
        assert(submitted_at(ops, a.id) < submitted_at(ops, b.id));
    }
}

} // verus!
