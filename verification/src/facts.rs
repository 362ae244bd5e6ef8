//! Facts about the functions of the model that the proofs of the engine use.

use crate::model::apart;
use crate::model::arrival_index;
use crate::model::crosses;
use crate::model::enqueue;
use crate::model::fill;
use crate::model::first_with_id;
use crate::model::holds_id;
use crate::model::in_arrival_order;
use crate::model::in_priority_order;
use crate::model::occurrences;
use crate::model::ranks_before;
use crate::model::resting_valid;
use crate::model::submitted_at;
use crate::model::total_quantity;
use crate::model::without_id;
use crate::model::Operation;
use crate::order::Order;
use crate::order::OrderSide;
use uuid::Uuid;
use vstd::prelude::*;

verus! {

/// `first_with_id` is the index of an order of that identifier with none
/// before it, or the length if there is no such order.
pub proof fn lemma_first_with_id(s: Seq<Order>, id: Uuid)
    ensures
        0 <= first_with_id(s, id) <= s.len(),
        first_with_id(s, id) < s.len() ==> s[first_with_id(s, id)].id == id,
        forall|i: int| 0 <= i < first_with_id(s, id) ==> (#[trigger] s[i]).id != id,
    decreases s.len(),
{
    if s.len() > 0 && s[0].id != id {
        let t = s.drop_first();
        lemma_first_with_id(t, id);
        assert forall|i: int| 0 <= i < first_with_id(s, id) implies (#[trigger] s[i]).id != id by {
            if i > 0 {
                assert(s[i] == t[i - 1]);
            }
        }
    }
}

/// An index with no order of the identifier before it, and with one at it
/// unless it is the length, is `first_with_id`.
pub proof fn lemma_first_with_id_at(s: Seq<Order>, id: Uuid, j: int)
    requires
        0 <= j <= s.len(),
        forall|i: int| 0 <= i < j ==> (#[trigger] s[i]).id != id,
        j < s.len() ==> s[j].id == id,
    ensures
        first_with_id(s, id) == j,
{
    lemma_first_with_id(s, id);
    let f = first_with_id(s, id);
    if f < j {
        assert(s[f].id == id);
    } else if j < f {
        assert(s[j].id != id);
    }
}

/// The first order of an identifier in `a + b` is the first one in `a`, or,
/// if `a` has none, the first one in `b`.
pub proof fn lemma_first_with_id_append(a: Seq<Order>, b: Seq<Order>, id: Uuid)
    ensures
        first_with_id(a + b, id) == if holds_id(a, id) {
            first_with_id(a, id)
        } else {
            a.len() + first_with_id(b, id)
        },
        holds_id(a + b, id) <==> holds_id(a, id) || holds_id(b, id),
{
    lemma_first_with_id(a, id);
    lemma_first_with_id(b, id);
    let s = a + b;
    if holds_id(a, id) {
        let j = first_with_id(a, id);
        assert forall|i: int| 0 <= i < j implies (#[trigger] s[i]).id != id by {
            assert(s[i] == a[i]);
        }
        assert(s[j] == a[j]);
        lemma_first_with_id_at(s, id, j);
    } else {
        let j = a.len() + first_with_id(b, id);
        assert forall|i: int| 0 <= i < j implies (#[trigger] s[i]).id != id by {
            if i < a.len() {
                assert(s[i] == a[i]);
            } else {
                assert(s[i] == b[i - a.len()]);
            }
        }
        if j < s.len() {
            assert(s[j] == b[j - a.len()]);
        }
        lemma_first_with_id_at(s, id, j);
    }
}

/// The total of a sequence with one more order at its front.
pub proof fn lemma_total_front(o: Order, s: Seq<Order>)
    ensures
        total_quantity(seq![o] + s) == o.quantity + total_quantity(s),
{
    let t = seq![o] + s;
    assert(t[0] == o);
    assert(t.drop_first() =~= s);
}

/// The total of a sequence with one more order anywhere in it.
pub proof fn lemma_total_insert(s: Seq<Order>, i: int, o: Order)
    requires
        0 <= i <= s.len(),
    ensures
        total_quantity(s.insert(i, o)) == total_quantity(s) + o.quantity,
    decreases s.len(),
{
    let t = s.insert(i, o);
    if i == 0 {
        assert(t =~= seq![o] + s);
        lemma_total_front(o, s);
    } else {
        assert(t[0] == s[0]);
        assert(t.drop_first() =~= s.drop_first().insert(i - 1, o));
        lemma_total_insert(s.drop_first(), i - 1, o);
    }
}

/// What is traded and what is left make up the incoming quantity, and what is
/// traded and what still rests make up what rested.
pub proof fn lemma_fill_conserves(
    resting: Seq<Order>,
    taker: OrderSide,
    limit: u64,
    quantity: u64,
)
    ensures
        total_quantity(fill(resting, taker, limit, quantity).trades) + fill(
            resting,
            taker,
            limit,
            quantity,
        ).left == quantity,
        total_quantity(fill(resting, taker, limit, quantity).trades) + total_quantity(
            fill(resting, taker, limit, quantity).resting,
        ) == total_quantity(resting),
    decreases resting.len(),
{
    let f = fill(resting, taker, limit, quantity);
    if quantity == 0 || resting.len() == 0 || !crosses(taker, limit, resting[0].price) {
        assert(total_quantity(f.trades) == 0);
    } else if resting[0].quantity <= quantity {
        let less = (quantity - resting[0].quantity) as u64;
        lemma_fill_conserves(resting.drop_first(), taker, limit, less);
        lemma_total_front(resting[0], fill(resting.drop_first(), taker, limit, less).trades);
    } else {
        let trade = resting[0].with_quantity(quantity);
        assert(f.trades =~= seq![trade] + Seq::<Order>::empty());
        lemma_total_front(trade, Seq::<Order>::empty());
        assert(f.resting[0].quantity == resting[0].quantity - quantity);
        assert(f.resting.drop_first() =~= resting.drop_first());
    }
}

/// The shape of a match. The trades are against the first orders of the side,
/// one each and in their order; all of these but the last are used up; the
/// side afterwards is what stood behind them, with what is left of the last
/// one, if anything is, in front. And matching goes on as long as quantity is
/// left and the front price crosses.
pub proof fn lemma_fill_shape(
    resting: Seq<Order>,
    taker: OrderSide,
    limit: u64,
    quantity: u64,
)
    ensures
        ({
            let f = fill(resting, taker, limit, quantity);
            let n = f.trades.len() as int;
            &&& n <= resting.len()
            &&& forall|i: int|
                0 <= i < n ==> {
                    &&& #[trigger] f.trades[i] == resting[i].with_quantity(f.trades[i].quantity)
                    &&& f.trades[i].quantity <= resting[i].quantity
                    &&& crosses(taker, limit, resting[i].price)
                }
            &&& forall|i: int|
                0 <= i < n - 1 ==> (#[trigger] f.trades[i]).quantity == resting[i].quantity
            &&& f.resting == if n > 0 && f.trades[n - 1].quantity < resting[n - 1].quantity {
                seq![
                    resting[n - 1].with_quantity(
                        (resting[n - 1].quantity - f.trades[n - 1].quantity) as u64,
                    ),
                ] + resting.skip(n)
            } else {
                resting.skip(n)
            }
            &&& n > 0 && f.trades[n - 1].quantity < resting[n - 1].quantity ==> f.left == 0
            &&& f.left > 0 && n < resting.len() ==> !crosses(taker, limit, resting[n].price)
        }),
    decreases resting.len(),
{
    let f = fill(resting, taker, limit, quantity);
    let n = f.trades.len() as int;
    if quantity == 0 || resting.len() == 0 || !crosses(taker, limit, resting[0].price) {
        assert(f.resting =~= resting.skip(0));
    } else if resting[0].quantity <= quantity {
        let less = (quantity - resting[0].quantity) as u64;
        let tail = resting.drop_first();
        let g = fill(tail, taker, limit, less);
        let m = g.trades.len() as int;
        lemma_fill_shape(tail, taker, limit, less);
        assert(n == m + 1);
        assert forall|i: int| 0 <= i < n implies {
            &&& #[trigger] f.trades[i] == resting[i].with_quantity(f.trades[i].quantity)
            &&& f.trades[i].quantity <= resting[i].quantity
            &&& crosses(taker, limit, resting[i].price)
        } by {
            if i > 0 {
                assert(f.trades[i] == g.trades[i - 1]);
                assert(tail[i - 1] == resting[i]);
            }
        }
        assert forall|i: int| 0 <= i < n - 1 implies (#[trigger] f.trades[i]).quantity
            == resting[i].quantity by {
            if i > 0 {
                assert(f.trades[i] == g.trades[i - 1]);
                assert(tail[i - 1] == resting[i]);
            }
        }
        assert(tail.skip(m) =~= resting.skip(n));
        if m > 0 {
            assert(f.trades[n - 1] == g.trades[m - 1]);
            assert(tail[m - 1] == resting[n - 1]);
        }
        if m < tail.len() {
            assert(tail[m] == resting[n]);
        }
    } else {
        assert(n == 1);
        assert(f.resting =~= seq![
            resting[0].with_quantity((resting[0].quantity - quantity) as u64),
        ] + resting.skip(1));
    }
}

/// Matching against a valid side leaves a valid side, whose orders have the
/// identifiers and prices of the last orders of the side before. If quantity is left, no
/// price of the side crosses the limit any more.
pub proof fn lemma_fill_valid(
    resting: Seq<Order>,
    taker: OrderSide,
    limit: u64,
    quantity: u64,
)
    requires
        resting_valid(resting, taker.opposite()),
    ensures
        ({
            let f = fill(resting, taker, limit, quantity);
            let gone = resting.len() - f.resting.len();
            &&& resting_valid(f.resting, taker.opposite())
            &&& gone >= 0
            &&& forall|i: int|
                0 <= i < f.resting.len() ==> (#[trigger] f.resting[i]).price == resting[i
                    + gone].price && f.resting[i].id == resting[i + gone].id
            &&& f.left > 0 ==> forall|i: int|
                0 <= i < f.resting.len() ==> !crosses(taker, limit, (#[trigger] f.resting[i]).price)
        }),
{
    let f = fill(resting, taker, limit, quantity);
    let n = f.trades.len() as int;
    let side = taker.opposite();
    lemma_fill_shape(resting, taker, limit, quantity);
    let partial = n > 0 && f.trades[n - 1].quantity < resting[n - 1].quantity;
    let gone = if partial { n - 1 } else { n };
    assert(f.resting.len() == resting.len() - gone);
    assert forall|i: int| 0 <= i < f.resting.len() implies {
        &&& (#[trigger] f.resting[i]).side == side
        &&& f.resting[i].quantity > 0
        &&& f.resting[i].price == resting[i + gone].price
        &&& f.resting[i].id == resting[i + gone].id
    } by {
        if partial && i == 0 {
            assert(resting[n - 1].side == side);
        } else {
            assert(f.resting[i] == resting[i + gone]);
        }
    }
    assert forall|i: int, j: int| 0 <= i < j < f.resting.len() implies !ranks_before(
        side,
        f.resting[j].price,
        f.resting[i].price,
    ) by {
        assert(f.resting[i].price == resting[i + gone].price);
        assert(f.resting[j].price == resting[j + gone].price);
        assert(!ranks_before(side, resting[j + gone].price, resting[i + gone].price));
    }
    if f.left > 0 {
        assert(!partial);
        assert forall|i: int| 0 <= i < f.resting.len() implies !crosses(
            taker,
            limit,
            (#[trigger] f.resting[i]).price,
        ) by {
            assert(f.resting[i].price == resting[i + n].price);
            if i > 0 {
                assert(!ranks_before(side, resting[i + n].price, resting[n].price));
            }
        }
    }
}

/// Where an order arrives in a side that is in priority order: behind every
/// order that its price does not outrank, in front of every order that it
/// does.
pub proof fn lemma_arrival_place(s: Seq<Order>, side: OrderSide, price: u64)
    requires
        in_priority_order(s, side),
    ensures
        0 <= arrival_index(s, side, price) <= s.len(),
        forall|i: int|
            0 <= i < arrival_index(s, side, price) ==> !ranks_before(
                side,
                price,
                (#[trigger] s[i]).price,
            ),
        forall|i: int|
            arrival_index(s, side, price) <= i < s.len() ==> ranks_before(
                side,
                price,
                (#[trigger] s[i]).price,
            ),
    decreases s.len(),
{
    if s.len() == 0 {
    } else if ranks_before(side, price, s[0].price) {
        assert forall|i: int| 0 <= i < s.len() implies ranks_before(
            side,
            price,
            (#[trigger] s[i]).price,
        ) by {
            if i > 0 {
                assert(!ranks_before(side, s[i].price, s[0].price));
            }
        }
    } else {
        let t = s.drop_first();
        assert forall|i: int, j: int| 0 <= i < j < t.len() implies !ranks_before(
            side,
            t[j].price,
            t[i].price,
        ) by {
            assert(t[i] == s[i + 1] && t[j] == s[j + 1]);
        }
        lemma_arrival_place(t, side, price);
        let p = arrival_index(s, side, price);
        assert forall|i: int| 0 <= i < p implies !ranks_before(
            side,
            price,
            (#[trigger] s[i]).price,
        ) by {
            if i > 0 {
                assert(s[i] == t[i - 1]);
            }
        }
        assert forall|i: int| p <= i < s.len() implies ranks_before(
            side,
            price,
            (#[trigger] s[i]).price,
        ) by {
            assert(s[i] == t[i - 1]);
        }
    }
}

/// A valid side with an open order of its side arrived is a valid side.
pub proof fn lemma_enqueue_valid(s: Seq<Order>, o: Order)
    requires
        resting_valid(s, o.side),
        o.quantity > 0,
    ensures
        resting_valid(enqueue(s, o), o.side),
{
    lemma_arrival_place(s, o.side, o.price);
    let p = arrival_index(s, o.side, o.price);
    let t = enqueue(s, o);
    assert forall|i: int| 0 <= i < t.len() implies (#[trigger] t[i]).side == o.side
        && t[i].quantity > 0 by {
        if i < p {
            assert(t[i] == s[i]);
        } else if i > p {
            assert(t[i] == s[i - 1]);
        }
    }
    assert forall|i: int, j: int| 0 <= i < j < t.len() implies !ranks_before(
        o.side,
        t[j].price,
        t[i].price,
    ) by {
        let i0 = if i < p { i } else { i - 1 };
        let j0 = if j < p { j } else { j - 1 };
        if i != p {
            assert(t[i] == s[i0]);
        }
        if j != p {
            assert(t[j] == s[j0]);
        }
        if i != p && j != p {
            assert(!ranks_before(o.side, s[j0].price, s[i0].price));
        }
    }
}

/// A valid side without one of its orders is a valid side.
pub proof fn lemma_remove_valid(s: Seq<Order>, side: OrderSide, k: int)
    requires
        resting_valid(s, side),
        0 <= k < s.len(),
    ensures
        resting_valid(s.remove(k), side),
{
    let t = s.remove(k);
    assert forall|i: int| 0 <= i < t.len() implies (#[trigger] t[i]).side == side
        && t[i].quantity > 0 by {
        let i0 = if i < k { i } else { i + 1 };
        assert(t[i] == s[i0]);
    }
    assert forall|i: int, j: int| 0 <= i < j < t.len() implies !ranks_before(
        side,
        t[j].price,
        t[i].price,
    ) by {
        let i0 = if i < k { i } else { i + 1 };
        let j0 = if j < k { j } else { j + 1 };
        assert(t[i] == s[i0] && t[j] == s[j0]);
    }
}

/// If the bids are below the asks, the asks are above the bids.
pub proof fn lemma_apart_turned(side: OrderSide, own: Seq<Order>, other: Seq<Order>)
    requires
        apart(side, own, other),
    ensures
        apart(side.opposite(), other, own),
{
    assert forall|i: int, j: int|
        #![trigger other[i], own[j]]
        0 <= i < other.len() && 0 <= j < own.len() implies !crosses(
        side.opposite(),
        other[i].price,
        own[j].price,
    ) by {
        assert(!crosses(side, own[j].price, other[i].price));
    }
}

/// A side stays apart from the other when an order arrives in it that could
/// not trade with any order of the other.
pub proof fn lemma_apart_insert(
    side: OrderSide,
    own: Seq<Order>,
    other: Seq<Order>,
    p: int,
    x: Order,
)
    requires
        apart(side, own, other),
        0 <= p <= own.len(),
        forall|j: int|
            0 <= j < other.len() ==> !crosses(side, x.price, (#[trigger] other[j]).price),
    ensures
        apart(side, own.insert(p, x), other),
{
    let more = own.insert(p, x);
    assert forall|i: int, j: int|
        #![trigger more[i], other[j]]
        0 <= i < more.len() && 0 <= j < other.len() implies !crosses(
        side,
        more[i].price,
        other[j].price,
    ) by {
        if i < p {
            assert(more[i] == own[i]);
            assert(!crosses(side, own[i].price, other[j].price));
        } else if i > p {
            assert(more[i] == own[i - 1]);
            assert(!crosses(side, own[i - 1].price, other[j].price));
        } else {
            assert(more[i] == x);
        }
    }
}

/// A side stays apart from the other when the other is left with the prices
/// of its last orders.
pub proof fn lemma_apart_rest(
    side: OrderSide,
    own: Seq<Order>,
    other: Seq<Order>,
    rest: Seq<Order>,
    gone: int,
)
    requires
        apart(side, own, other),
        gone >= 0,
        rest.len() + gone == other.len(),
        forall|j: int| 0 <= j < rest.len() ==> (#[trigger] rest[j]).price == other[j + gone].price,
    ensures
        apart(side, own, rest),
{
    assert forall|i: int, j: int|
        #![trigger own[i], rest[j]]
        0 <= i < own.len() && 0 <= j < rest.len() implies !crosses(
        side,
        own[i].price,
        rest[j].price,
    ) by {
        assert(rest[j].price == other[j + gone].price);
        assert(!crosses(side, own[i].price, other[j + gone].price));
    }
}

/// Submitting keeps two sides valid and apart: the side that the order trades
/// against after the match, and the order's own side with what is left of the
/// order arrived.
pub proof fn lemma_submit_sides(own: Seq<Order>, other: Seq<Order>, o: Order)
    requires
        resting_valid(own, o.side),
        resting_valid(other, o.side.opposite()),
        apart(o.side, own, other),
    ensures
        ({
            let f = fill(other, o.side, o.price, o.quantity);
            let arrived = if f.left > 0 {
                enqueue(own, o.with_quantity(f.left))
            } else {
                own
            };
            &&& resting_valid(arrived, o.side)
            &&& resting_valid(f.resting, o.side.opposite())
            &&& apart(o.side, arrived, f.resting)
        }),
{
    let f = fill(other, o.side, o.price, o.quantity);
    let last = o.with_quantity(f.left);
    lemma_fill_valid(other, o.side, o.price, o.quantity);
    lemma_apart_rest(o.side, own, other, f.resting, other.len() - f.resting.len());
    if f.left > 0 {
        lemma_enqueue_valid(own, last);
        lemma_arrival_place(own, o.side, o.price);
        lemma_apart_insert(o.side, own, f.resting, arrival_index(own, o.side, o.price), last);
    }
}

/// Taking an order out of a side keeps it valid and apart from the other.
pub proof fn lemma_remove_sides(side: OrderSide, own: Seq<Order>, other: Seq<Order>, k: int)
    requires
        resting_valid(own, side),
        apart(side, own, other),
        0 <= k < own.len(),
    ensures
        resting_valid(own.remove(k), side),
        apart(side, own.remove(k), other),
{
    lemma_remove_valid(own, side, k);
    let less = own.remove(k);
    assert forall|i: int, j: int|
        #![trigger less[i], other[j]]
        0 <= i < less.len() && 0 <= j < other.len() implies !crosses(
        side,
        less[i].price,
        other[j].price,
    ) by {
        let i0 = if i < k { i } else { i + 1 };
        assert(less[i] == own[i0]);
        assert(!crosses(side, own[i0].price, other[j].price));
    }
}

/// The place of arrival is a place of the sequence or its end.
pub proof fn lemma_arrival_in_range(s: Seq<Order>, side: OrderSide, price: u64)
    ensures
        0 <= arrival_index(s, side, price) <= s.len(),
    decreases s.len(),
{
    if s.len() > 0 && !ranks_before(side, price, s[0].price) {
        lemma_arrival_in_range(s.drop_first(), side, price);
    }
}

/// An identifier that no order has occurs no times, and taking out the first
/// order that has it makes it occur once less.
pub proof fn lemma_occurrences(s: Seq<Order>, id: Uuid)
    ensures
        holds_id(s, id) <==> occurrences(s, id) > 0,
        holds_id(s, id) ==> occurrences(without_id(s, id), id) + 1 == occurrences(s, id),
    decreases s.len(),
{
    if s.len() > 0 {
        let t = s.drop_first();
        lemma_occurrences(t, id);
        if s[0].id == id {
            assert(s.remove(0) =~= t);
        } else if holds_id(t, id) {
            let k = first_with_id(t, id);
            lemma_first_with_id(t, id);
            let less = s.remove(k + 1);
            assert(less[0] == s[0]);
            assert(less.drop_first() =~= t.remove(k));
        }
    }
}

/// The occurrences in a sequence with one more order anywhere in it.
pub proof fn lemma_occurrences_insert(s: Seq<Order>, i: int, o: Order, id: Uuid)
    requires
        0 <= i <= s.len(),
    ensures
        occurrences(s.insert(i, o), id) == occurrences(s, id) + if o.id == id {
            1nat
        } else {
            0nat
        },
    decreases s.len(),
{
    let t = s.insert(i, o);
    if i == 0 {
        assert(t[0] == o);
        assert(t.drop_first() =~= s);
    } else {
        assert(t[0] == s[0]);
        assert(t.drop_first() =~= s.drop_first().insert(i - 1, o));
        lemma_occurrences_insert(s.drop_first(), i - 1, o, id);
    }
}

/// Taking an order out of a sequence adds no occurrence of an identifier.
pub proof fn lemma_occurrences_remove(s: Seq<Order>, k: int, id: Uuid)
    requires
        0 <= k < s.len(),
    ensures
        occurrences(s.remove(k), id) <= occurrences(s, id),
{
    let t = s.remove(k);
    assert(t.insert(k, s[k]) =~= s);
    lemma_occurrences_insert(t, k, s[k], id);
}

/// Matching adds no occurrence of an identifier to the side.
pub proof fn lemma_fill_occurrences(
    resting: Seq<Order>,
    taker: OrderSide,
    limit: u64,
    quantity: u64,
    id: Uuid,
)
    ensures
        occurrences(fill(resting, taker, limit, quantity).resting, id) <= occurrences(resting, id),
    decreases resting.len(),
{
    let f = fill(resting, taker, limit, quantity);
    if quantity == 0 || resting.len() == 0 || !crosses(taker, limit, resting[0].price) {
    } else if resting[0].quantity <= quantity {
        let less = (quantity - resting[0].quantity) as u64;
        lemma_fill_occurrences(resting.drop_first(), taker, limit, less, id);
    } else {
        assert(f.resting[0].id == resting[0].id);
        assert(f.resting.drop_first() =~= resting.drop_first());
    }
}

/// An identifier is submitted, if at all, by one of the operations.
pub proof fn lemma_submitted_at_range(ops: Seq<Operation>, id: Uuid)
    ensures
        -1 <= submitted_at(ops, id) < ops.len(),
    decreases ops.len(),
{
    if ops.len() > 0 {
        lemma_submitted_at_range(ops.drop_last(), id);
    }
}

/// Orders that keep their order, prices and identifiers, and the places of
/// the operations that submitted them, stay in arrival order.
pub proof fn lemma_arrival_order_rest(
    s: Seq<Order>,
    t: Seq<Order>,
    gone: int,
    before: Seq<Operation>,
    ops: Seq<Operation>,
)
    requires
        in_arrival_order(s, before),
        gone >= 0,
        t.len() + gone == s.len(),
        forall|i: int|
            0 <= i < t.len() ==> (#[trigger] t[i]).price == s[i + gone].price && t[i].id == s[i
                + gone].id,
        forall|i: int|
            0 <= i < s.len() ==> submitted_at(ops, (#[trigger] s[i]).id) == submitted_at(
                before,
                s[i].id,
            ),
    ensures
        in_arrival_order(t, ops),
{
    assert forall|i: int, j: int|
        #![trigger t[i], t[j]]
        0 <= i < j < t.len() && t[i].price == t[j].price implies submitted_at(ops, t[i].id)
        < submitted_at(ops, t[j].id) by {
        let a = s[i + gone];
        let b = s[j + gone];
        assert(t[i].id == a.id && t[j].id == b.id);
        assert(submitted_at(before, a.id) < submitted_at(before, b.id));
    }
}

/// A side in arrival order stays so when an order arrives that was submitted
/// after all that rest.
pub proof fn lemma_arrival_order_insert(
    s: Seq<Order>,
    o: Order,
    before: Seq<Operation>,
    ops: Seq<Operation>,
)
    requires
        in_priority_order(s, o.side),
        in_arrival_order(s, before),
        forall|i: int|
            0 <= i < s.len() ==> submitted_at(ops, (#[trigger] s[i]).id) == submitted_at(
                before,
                s[i].id,
            ) && submitted_at(ops, s[i].id) < submitted_at(ops, o.id),
    ensures
        in_arrival_order(enqueue(s, o), ops),
{
    lemma_arrival_place(s, o.side, o.price);
    let p = arrival_index(s, o.side, o.price);
    let t = enqueue(s, o);
    assert forall|i: int, j: int|
        #![trigger t[i], t[j]]
        0 <= i < j < t.len() && t[i].price == t[j].price implies submitted_at(ops, t[i].id)
        < submitted_at(ops, t[j].id) by {
        let i0 = if i < p { i } else { i - 1 };
        let j0 = if j < p { j } else { j - 1 };
        if i == p {
            assert(t[j] == s[j0]);
            assert(ranks_before(o.side, o.price, s[j0].price));
        } else if j == p {
            assert(t[i] == s[i0]);
        } else {
            assert(t[i] == s[i0] && t[j] == s[j0]);
            assert(submitted_at(before, s[i0].id) < submitted_at(before, s[j0].id));
        }
    }
}

/// A side in arrival order stays so when an order is taken out of it.
pub proof fn lemma_arrival_order_remove(
    s: Seq<Order>,
    k: int,
    before: Seq<Operation>,
    ops: Seq<Operation>,
)
    requires
        in_arrival_order(s, before),
        0 <= k < s.len(),
        forall|i: int|
            0 <= i < s.len() ==> submitted_at(ops, (#[trigger] s[i]).id) == submitted_at(
                before,
                s[i].id,
            ),
    ensures
        in_arrival_order(s.remove(k), ops),
{
    let t = s.remove(k);
    assert forall|i: int, j: int|
        #![trigger t[i], t[j]]
        0 <= i < j < t.len() && t[i].price == t[j].price implies submitted_at(ops, t[i].id)
        < submitted_at(ops, t[j].id) by {
        let i0 = if i < k { i } else { i + 1 };
        let j0 = if j < k { j } else { j + 1 };
        assert(t[i] == s[i0] && t[j] == s[j0]);
        assert(submitted_at(before, s[i0].id) < submitted_at(before, s[j0].id));
    }
}

} // verus!
