//! One side of the book: a queue of resting orders for each price.

use crate::facts::lemma_first_with_id;
use crate::facts::lemma_first_with_id_append;
use crate::facts::lemma_first_with_id_at;
use crate::levels::best_key;
use crate::levels::concat;
use crate::levels::flatten;
use crate::levels::in_key_order;
use crate::levels::is_best;
use crate::levels::lemma_best_exists;
use crate::levels::lemma_concat_agrees;
use crate::levels::lemma_concat_append;
use crate::levels::lemma_concat_one;
use crate::levels::lemma_flatten_concat;
use crate::levels::lemma_flatten_empty;
use crate::levels::lemma_flatten_enqueue;
use crate::levels::lemma_flatten_unfold;
use crate::levels::lemma_flatten_valid;
use crate::levels::levels_valid;
use crate::levels::Levels;
use crate::model::crosses;
use crate::model::enqueue;
use crate::model::fill;
use crate::model::first_with_id;
use crate::model::holds_id;
use crate::model::ranks_before;
use crate::model::resting_valid;
use crate::model::without_id;
use crate::order::Order;
use crate::order::OrderSide;
use std::collections::BTreeMap;
use std::collections::VecDeque;
use uuid::Uuid;
use vstd::prelude::*;
use vstd::std_specs::cmp::OrdSpec;
use vstd::std_specs::iter::IteratorSpec;

verus! {

/// `BTreeMap::first_key_value`, for its key: the lowest price that has a
/// queue, or `None` if no price has one.
#[verifier::external_body]
fn first_price(levels: &BTreeMap<u64, VecDeque<Order>>) -> (price: Option<u64>)
    ensures
        match price {
            Some(k) => levels@.contains_key(k) && forall|j: u64|
                levels@.contains_key(j) ==> k <= j,
            None => forall|j: u64| !levels@.contains_key(j),
        },
{
    match levels.first_key_value() {
        Some((k, _)) => Some(*k),
        None => None,
    }
}

/// `BTreeMap::last_key_value`, for its key: the highest price that has a
/// queue, or `None` if no price has one.
#[verifier::external_body]
fn last_price(levels: &BTreeMap<u64, VecDeque<Order>>) -> (price: Option<u64>)
    ensures
        match price {
            Some(k) => levels@.contains_key(k) && forall|j: u64|
                levels@.contains_key(j) ==> j <= k,
            None => forall|j: u64| !levels@.contains_key(j),
        },
{
    match levels.last_key_value() {
        Some((k, _)) => Some(*k),
        None => None,
    }
}

/// Whether an incoming order of side `taker` and limit `limit` may trade at
/// the resting price `price`.
pub fn price_crosses(taker: OrderSide, limit: u64, price: u64) -> (may: bool)
    ensures
        may == crosses(taker, limit, price),
{
    match taker {
        OrderSide::Buy => price <= limit,
        OrderSide::Sell => price >= limit,
    }
}

/// Takes the queue of `price` out of `levels`, if the price has one.
fn take_level(levels: &mut BTreeMap<u64, VecDeque<Order>>, price: u64) -> (queue: Option<
    VecDeque<Order>,
>)
    ensures
        final(levels)@ == old(levels)@.remove(price),
        match queue {
            Some(q) => old(levels)@.contains_key(price) && q == old(levels)@[price],
            None => !old(levels)@.contains_key(price),
        },
{
    broadcast use vstd::std_specs::btree::group_btree_axioms;
    broadcast use vstd::laws_cmp::group_laws_cmp;

    levels.remove(&price)
}

/// Makes `queue` the queue of `price` in `levels`.
fn put_level(levels: &mut BTreeMap<u64, VecDeque<Order>>, price: u64, queue: VecDeque<Order>)
    ensures
        final(levels)@ == old(levels)@.insert(price, queue),
{
    broadcast use vstd::std_specs::btree::group_btree_axioms;
    broadcast use vstd::laws_cmp::group_laws_cmp;

    levels.insert(price, queue);
}

/// The queue of `price` in `levels`, if the price has one.
fn level<'a>(levels: &'a BTreeMap<u64, VecDeque<Order>>, price: u64) -> (queue: Option<
    &'a VecDeque<Order>,
>)
    ensures
        match queue {
            Some(q) => levels@.contains_key(price) && *q == levels@[price],
            None => !levels@.contains_key(price),
        },
{
    broadcast use vstd::std_specs::btree::group_btree_axioms;
    broadcast use vstd::laws_cmp::group_laws_cmp;

    levels.get(&price)
}

/// The prices that have a queue, lowest first.
fn ascending_prices(levels: &BTreeMap<u64, VecDeque<Order>>) -> (prices: Vec<u64>)
    ensures
        in_key_order(prices@, OrderSide::Sell),
        prices@.to_set() =~= levels@.dom(),
{
    broadcast use vstd::std_specs::btree::group_btree_axioms;
    broadcast use vstd::laws_cmp::group_laws_cmp;

    let ghost keys = vstd::std_specs::btree::spec_keys_iter(levels).remaining();
    let mut prices: Vec<u64> = Vec::new();
    for key in it: levels.keys()
        invariant
            it.seq() == keys,
            prices@.len() == it.index(),
            forall|j: int| 0 <= j < prices@.len() ==> prices@[j] == *keys[j],
    {
        prices.push(*key);
    }
    proof {
        assert(prices@ =~= keys.unref());
        assert(vstd::laws_cmp::obeys_cmp::<&u64>());
        vstd::std_specs::btree::axiom_increasing_seq_meaning::<&u64>(keys);
        assert forall|i: int, j: int| 0 <= i < j < prices@.len() implies prices@[i]
            < prices@[j] by {
            assert((&keys[i]).cmp_spec(&keys[j]) is Less);
        }
    }
    prices
}

/// `v` back to front.
fn reversed(v: Vec<u64>) -> (r: Vec<u64>)
    ensures
        r@ == v@.reverse(),
{
    let mut r: Vec<u64> = Vec::new();
    let mut i: usize = v.len();
    while i > 0
        invariant
            i <= v@.len(),
            r@.len() == v@.len() - i,
            forall|j: int| 0 <= j < r@.len() ==> r@[j] == v@[v@.len() - 1 - j],
        decreases i,
    {
        i = i - 1;
        r.push(v[i]);
    }
    assert(r@ =~= v@.reverse());
    r
}

/// The place of the first order of `queue` with the identifier `id`.
fn position_in(queue: &VecDeque<Order>, id: &Uuid) -> (place: Option<usize>)
    ensures
        match place {
            Some(j) => j < queue@.len() && first_with_id(queue@, *id) == j,
            None => !holds_id(queue@, *id),
        },
{
    let mut j: usize = 0;
    while j < queue.len()
        invariant
            j <= queue@.len(),
            forall|i: int| 0 <= i < j ==> (#[trigger] queue@[i]).id != *id,
        decreases queue@.len() - j,
    {
        if queue[j].has_id(id) {
            proof {
                lemma_first_with_id_at(queue@, *id, j as int);
            }
            return Some(j);
        }
        j = j + 1;
    }
    proof {
        lemma_first_with_id_at(queue@, *id, queue@.len() as int);
    }
    None
}

/// The resting orders of one side, a first-in-first-out queue for each price
/// that has orders. Its view is the side's priority sequence.
#[derive(Clone)]
pub struct SideBook {
    side: OrderSide,
    levels: BTreeMap<u64, VecDeque<Order>>,
}

impl View for SideBook {
    type V = Seq<Order>;

    closed spec fn view(&self) -> Seq<Order> {
        flatten(self.levels@, self.side)
    }
}

impl SideBook {
    /// The invariant of the representation: no queue is empty, and each holds
    /// open orders of its price and of this side.
    pub closed spec fn wf(&self) -> bool {
        levels_valid(self.levels@, self.side)
    }

    /// The side whose orders rest here.
    pub closed spec fn spec_side(&self) -> OrderSide {
        self.side
    }

    /// The side whose orders rest here.
    #[verifier::when_used_as_spec(spec_side)]
    pub fn side(&self) -> (side: OrderSide)
        ensures
            side == self.spec_side(),
    {
        self.side
    }

    /// A well-formed side book holds a valid side.
    pub proof fn lemma_valid(&self)
        requires
            self.wf(),
        ensures
            resting_valid(self@, self.side()),
    {
        lemma_flatten_valid(self.levels@, self.side);
    }

    /// A side book for the orders of `side`, without orders.
    pub fn new(side: OrderSide) -> (book: SideBook)
        ensures
            book.wf(),
            book.side() == side,
            book@ == Seq::<Order>::empty(),
    {
        let book = SideBook { side, levels: BTreeMap::new() };
        proof {
            lemma_flatten_empty(book.levels@, side);
        }
        book
    }

    /// The best price that has resting orders: the highest bid, the lowest
    /// ask. `None` if nothing rests.
    pub fn best_price(&self) -> (price: Option<u64>)
        requires
            self.wf(),
        ensures
            match price {
                Some(k) => self@.len() > 0 && self@[0].price == k,
                None => self@.len() == 0,
            },
    {
        let price = match self.side {
            OrderSide::Buy => last_price(&self.levels),
            OrderSide::Sell => first_price(&self.levels),
        };
        proof {
            match price {
                Some(k) => {
                    assert(is_best(self.levels@.dom(), self.side, k));
                    lemma_flatten_unfold(self.levels@, self.side, k);
                    assert(self.levels@.contains_key(k));
                    assert(self@[0] == self.levels@[k]@[0]);
                },
                None => {
                    assert(self.levels@.dom() =~= Set::<u64>::empty());
                    lemma_flatten_empty(self.levels@, self.side);
                },
            }
        }
        price
    }

    /// Matches `quantity` units of an incoming order of the other side with
    /// limit `limit` against this side, best price first and oldest order
    /// first at each price. Returns the trades, in the order in which they
    /// happened, and what is left of the quantity.
    pub fn take(&mut self, limit: u64, quantity: u64) -> (out: (Vec<Order>, u64))
        requires
            old(self).wf(),
        ensures
            final(self).wf(),
            final(self).side() == old(self).side(),
            out.0@ == fill(old(self)@, old(self).side().opposite(), limit, quantity).trades,
            final(self)@ == fill(old(self)@, old(self).side().opposite(), limit, quantity).resting,
            out.1 == fill(old(self)@, old(self).side().opposite(), limit, quantity).left,
    {
        let taker = self.side.opposite();
        let ghost whole = fill(self@, taker, limit, quantity);
        let mut trades: Vec<Order> = Vec::new();
        let mut left = quantity;
        loop
            invariant
                self.wf(),
                self.side == old(self).side,
                taker == self.side.opposite(),
                whole.trades == trades@ + fill(self@, taker, limit, left).trades,
                whole.resting == fill(self@, taker, limit, left).resting,
                whole.left == fill(self@, taker, limit, left).left,
            ensures
                self.wf(),
                self.side == old(self).side,
                whole.trades == trades@,
                whole.resting == self@,
                whole.left == left,
            decreases left,
        {
            if left == 0 {
                assert(trades@ + Seq::<Order>::empty() =~= trades@);
                break ;
            }
            let best = match self.best_price() {
                Some(price) => price,
                None => {
                    assert(trades@ + Seq::<Order>::empty() =~= trades@);
                    break ;
                },
            };
            if !price_crosses(taker, limit, best) {
                assert(trades@ + Seq::<Order>::empty() =~= trades@);
                break ;
            }
            let ghost before = self.levels@;
            let ghost seq_before = self@;
            proof {
                lemma_first_is_best(before, self.side, best);
                lemma_flatten_unfold(before, self.side, best);
            }
            let mut queue = take_level(&mut self.levels, best).unwrap();
            let ghost queue_before = queue@;
            assert(queue_before == before[best]@);
            let popped = queue.pop_front();
            let front = popped.unwrap();
            assert(front == seq_before[0]);
            assert(queue@ =~= queue_before.drop_first());
            if front.quantity <= left {
                left = left - front.quantity;
                trades.push(front);
                if queue.len() > 0 {
                    put_level(&mut self.levels, best, queue);
                    proof {
                        assert(is_best(self.levels@.dom(), self.side, best));
                        lemma_flatten_unfold(self.levels@, self.side, best);
                        assert(self.levels@.remove(best) =~= before.remove(best));
                    }
                }
                assert(self@ =~= seq_before.drop_first());
            } else {
                let reduced = front.with_quantity(front.quantity - left);
                trades.push(front.with_quantity(left));
                left = 0;
                queue.push_front(reduced);
                put_level(&mut self.levels, best, queue);
                proof {
                    assert(is_best(self.levels@.dom(), self.side, best));
                    lemma_flatten_unfold(self.levels@, self.side, best);
                    assert(self.levels@.remove(best) =~= before.remove(best));
                    assert(self@ =~= seq_before.update(0, reduced));
                }
            }
        }
        (trades, left)
    }

    /// Lets an order of this side with the given identifier, price and
    /// quantity rest: it joins the back of the queue of its price. Without
    /// quantity there is nothing to rest.
    pub fn rest(&mut self, id: Uuid, price: u64, quantity: u64)
        requires
            old(self).wf(),
        ensures
            final(self).wf(),
            final(self).side() == old(self).side(),
            final(self)@ == if quantity > 0 {
                enqueue(old(self)@, (Order { id, side: old(self).side(), price, quantity }))
            } else {
                old(self)@
            },
    {
        if quantity == 0 {
            return ;
        }
        let order = Order { id, side: self.side, price, quantity };
        let ghost before = self.levels@;
        let mut queue = match take_level(&mut self.levels, price) {
            Some(queue) => queue,
            None => VecDeque::new(),
        };
        queue.push_back(order);
        proof {
            lemma_flatten_enqueue(before, self.side, order, queue);
        }
        put_level(&mut self.levels, price, queue);
        assert(self.levels@ =~= before.insert(price, queue));
    }

    /// The prices that have resting orders, best first.
    fn prices(&self) -> (prices: Vec<u64>)
        requires
            self.wf(),
        ensures
            in_key_order(prices@, self.side),
            prices@.to_set() =~= self.levels@.dom(),
            self@ == concat(self.levels@, prices@),
    {
        let up = ascending_prices(&self.levels);
        let prices = match self.side {
            OrderSide::Sell => up,
            OrderSide::Buy => {
                let down = reversed(up);
                proof {
                    assert forall|i: int, j: int| 0 <= i < j < down@.len() implies down@[i]
                        > down@[j] by {
                        assert(down@[i] == up@[up@.len() - 1 - i]);
                        assert(down@[j] == up@[up@.len() - 1 - j]);
                        assert(ranks_before(
                            OrderSide::Sell,
                            up@[up@.len() - 1 - j],
                            up@[up@.len() - 1 - i],
                        ));
                    }
                    assert forall|k: u64| down@.to_set().contains(k) <==> up@.to_set().contains(
                        k,
                    ) by {
                        if down@.to_set().contains(k) {
                            let n = choose|n: int| 0 <= n < down@.len() && down@[n] == k;
                            assert(up@[up@.len() - 1 - n] == k);
                        }
                        if up@.to_set().contains(k) {
                            let n = choose|n: int| 0 <= n < up@.len() && up@[n] == k;
                            assert(down@[up@.len() - 1 - n] == k);
                        }
                    }
                }
                down
            },
        };
        proof {
            lemma_flatten_concat(self.levels@, self.side, prices@);
        }
        prices
    }

    /// The resting orders in priority order: best price first, and at each
    /// price the order that arrived first.
    pub fn orders(&self) -> (orders: Vec<Order>)
        requires
            self.wf(),
        ensures
            orders@ == self@,
    {
        let prices = self.prices();
        let ghost ks = prices@;
        let mut orders: Vec<Order> = Vec::new();
        let mut i: usize = 0;
        while i < prices.len()
            invariant
                self.wf(),
                prices@ == ks,
                ks.to_set() =~= self.levels@.dom(),
                i <= ks.len(),
                orders@ == concat(self.levels@, ks.take(i as int)),
            decreases ks.len() - i,
        {
            let price = prices[i];
            assert(ks.to_set().contains(ks[i as int]));
            let ghost done = orders@;
            let queue = level(&self.levels, price).unwrap();
            let mut j: usize = 0;
            while j < queue.len()
                invariant
                    j <= queue@.len(),
                    orders@ == done + queue@.take(j as int),
                decreases queue@.len() - j,
            {
                orders.push(queue[j]);
                assert(queue@.take(j + 1) =~= queue@.take(j as int).push(queue@[j as int]));
                j = j + 1;
            }
            proof {
                assert(queue@.take(queue@.len() as int) =~= queue@);
                lemma_concat_append(self.levels@, ks.take(i as int), seq![price]);
                lemma_concat_one(self.levels@, price);
                assert(ks.take(i + 1) =~= ks.take(i as int) + seq![price]);
            }
            i = i + 1;
        }
        assert(ks.take(ks.len() as int) =~= ks);
        orders
    }

    /// Removes the first order in priority order that has the identifier
    /// `id`, and says whether there was one.
    pub fn cancel(&mut self, id: &Uuid) -> (found: bool)
        requires
            old(self).wf(),
        ensures
            final(self).wf(),
            final(self).side() == old(self).side(),
            found == holds_id(old(self)@, *id),
            final(self)@ == without_id(old(self)@, *id),
    {
        let prices = self.prices();
        let ghost ks = prices@;
        let ghost before = self.levels@;
        let mut i: usize = 0;
        while i < prices.len()
            invariant
                self.wf(),
                self.side == old(self).side,
                self.levels@ == before,
                before == old(self).levels@,
                prices@ == ks,
                in_key_order(ks, self.side),
                ks.to_set() =~= before.dom(),
                i <= ks.len(),
                !holds_id(concat(before, ks.take(i as int)), *id),
            decreases ks.len() - i,
        {
            let price = prices[i];
            assert(ks.to_set().contains(ks[i as int]));
            let place = position_in(level(&self.levels, price).unwrap(), id);
            match place {
                Some(j) => {
                    let mut queue = take_level(&mut self.levels, price).unwrap();
                    let _ = queue.remove(j);
                    if queue.len() > 0 {
                        put_level(&mut self.levels, price, queue);
                    }
                    proof {
                        lemma_cancel_found(
                            before,
                            self.levels@,
                            self.side,
                            ks,
                            i as int,
                            j as int,
                            *id,
                            queue,
                        );
                    }
                    return true;
                },
                None => {},
            }
            proof {
                lemma_concat_append(before, ks.take(i as int), seq![price]);
                lemma_concat_one(before, price);
                assert(ks.take(i + 1) =~= ks.take(i as int) + seq![price]);
                lemma_first_with_id_append(
                    concat(before, ks.take(i as int)),
                    before[price]@,
                    *id,
                );
            }
            i = i + 1;
        }
        assert(ks.take(ks.len() as int) =~= ks);
        false
    }
}

/// The best price is the price of the first order of the sequence.
proof fn lemma_first_is_best(levels: Levels, side: OrderSide, k: u64)
    requires
        levels_valid(levels, side),
        flatten(levels, side).len() > 0,
        flatten(levels, side)[0].price == k,
    ensures
        is_best(levels.dom(), side, k),
{
    lemma_flatten_valid(levels, side);
    lemma_best_exists(levels.dom(), side);
    let b = best_key(levels.dom(), side);
    lemma_flatten_unfold(levels, side, b);
    assert(flatten(levels, side)[0] == levels[b]@[0]);
}

/// Taking the first order of an identifier out of the queue of its price, and
/// the queue out of the levels if nothing is left in it, takes the first order
/// of that identifier out of the sequence, if no better price has one.
proof fn lemma_cancel_found(
    before: Levels,
    after: Levels,
    side: OrderSide,
    ks: Seq<u64>,
    i: int,
    j: int,
    id: Uuid,
    queue: VecDeque<Order>,
)
    requires
        levels_valid(before, side),
        in_key_order(ks, side),
        ks.to_set() =~= before.dom(),
        0 <= i < ks.len(),
        !holds_id(concat(before, ks.take(i)), id),
        0 <= j < before[ks[i]]@.len(),
        first_with_id(before[ks[i]]@, id) == j,
        queue@ == before[ks[i]]@.remove(j),
        after == if queue@.len() > 0 {
            before.remove(ks[i]).insert(ks[i], queue)
        } else {
            before.remove(ks[i])
        },
    ensures
        levels_valid(after, side),
        holds_id(flatten(before, side), id),
        flatten(after, side) == without_id(flatten(before, side), id),
{
    let k = ks[i];
    let pre_keys = ks.take(i);
    let post_keys = ks.skip(i + 1);
    let old_queue = before[k]@;
    let pre = concat(before, pre_keys);
    let post = concat(before, post_keys);
    let whole = flatten(before, side);
    assert(ks.to_set().contains(k));

    // The sequence before: the better prices, the queue, the worse prices.
    lemma_flatten_concat(before, side, ks);
    assert(ks =~= pre_keys + ks.skip(i));
    lemma_concat_append(before, pre_keys, ks.skip(i));
    assert(ks.skip(i)[0] == k);
    assert(ks.skip(i).drop_first() =~= post_keys);
    assert(whole == pre + (old_queue + post));
    lemma_first_with_id(old_queue, id);
    lemma_first_with_id_append(old_queue, post, id);
    lemma_first_with_id_append(pre, old_queue + post, id);
    let at = pre.len() + j;
    assert(first_with_id(whole, id) == at);

    // The other queues are as they were.
    assert forall|n: int| 0 <= n < pre_keys.len() implies after[#[trigger] pre_keys[n]]@
        == before[pre_keys[n]]@ by {
        assert(pre_keys[n] == ks[n]);
        assert(ranks_before(side, ks[n], ks[i]));
    }
    assert forall|n: int| 0 <= n < post_keys.len() implies after[#[trigger] post_keys[n]]@
        == before[post_keys[n]]@ by {
        assert(post_keys[n] == ks[i + 1 + n]);
        assert(ranks_before(side, ks[i], ks[i + 1 + n]));
    }
    lemma_concat_agrees(after, before, pre_keys);
    lemma_concat_agrees(after, before, post_keys);

    assert(levels_valid(after, side)) by {
        assert forall|p: u64| #[trigger] after.contains_key(p) implies after[p]@.len() > 0
            && forall|n: int|
            0 <= n < after[p]@.len() ==> {
                &&& (#[trigger] after[p]@[n]).price == p
                &&& after[p]@[n].side == side
                &&& after[p]@[n].quantity > 0
            } by {
            assert(before.contains_key(p));
            if p == k {
                assert forall|n: int| 0 <= n < queue@.len() implies {
                    &&& (#[trigger] queue@[n]).price == p
                    &&& queue@[n].side == side
                    &&& queue@[n].quantity > 0
                } by {
                    if n < j {
                        assert(queue@[n] == old_queue[n]);
                    } else {
                        assert(queue@[n] == old_queue[n + 1]);
                    }
                }
            }
        }
    }

    if queue@.len() > 0 {
        assert(after.dom() =~= before.dom());
        lemma_flatten_concat(after, side, ks);
        lemma_concat_append(after, pre_keys, ks.skip(i));
        assert(flatten(after, side) == pre + (queue@ + post));
        assert(flatten(after, side) =~= whole.remove(at));
    } else {
        let rest_keys = pre_keys + post_keys;
        assert forall|a: int, b: int| 0 <= a < b < rest_keys.len() implies ranks_before(
            side,
            rest_keys[a],
            rest_keys[b],
        ) by {
            let a0 = if a < i { a } else { a + 1 };
            let b0 = if b < i { b } else { b + 1 };
            assert(rest_keys[a] == ks[a0] && rest_keys[b] == ks[b0]);
        }
        assert(rest_keys.to_set() =~= after.dom()) by {
            assert forall|p: u64| rest_keys.to_set().contains(p) <==> after.dom().contains(p) by {
                if rest_keys.to_set().contains(p) {
                    let n = choose|n: int| 0 <= n < rest_keys.len() && rest_keys[n] == p;
                    let n0 = if n < i { n } else { n + 1 };
                    assert(ks[n0] == p);
                    assert(ks.to_set().contains(p));
                    if n0 < i {
                        assert(ranks_before(side, ks[n0], ks[i]));
                    } else {
                        assert(ranks_before(side, ks[i], ks[n0]));
                    }
                }
                if after.dom().contains(p) {
                    assert(ks.to_set().contains(p));
                    let n = choose|n: int| 0 <= n < ks.len() && ks[n] == p;
                    let m = if n < i { n } else { n - 1 };
                    assert(rest_keys[m] == p);
                }
            }
        }
        lemma_flatten_concat(after, side, rest_keys);
        lemma_concat_append(after, pre_keys, post_keys);
        assert(flatten(after, side) =~= whole.remove(at));
    }
}

} // verus!
