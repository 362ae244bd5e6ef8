//! Price levels: how the queues of one side, keyed by price, make up the
//! side's priority sequence.

use crate::facts::lemma_arrival_in_range;
use crate::model::arrival_index;
use crate::model::ranks_before;
use crate::model::resting_valid;
use crate::order::Order;
use crate::order::OrderSide;
use std::collections::VecDeque;
use vstd::prelude::*;

verus! {

/// The queues of one side by price.
pub type Levels = Map<u64, VecDeque<Order>>;

/// `k` is the best price of `keys` on the side `side`.
pub open spec fn is_best(keys: Set<u64>, side: OrderSide, k: u64) -> bool {
    keys.contains(k) && forall|j: u64| keys.contains(j) ==> !ranks_before(side, j, k)
}

/// The best price of `keys` on the side `side`, if `keys` is finite and not
/// empty.
pub closed spec fn best_key(keys: Set<u64>, side: OrderSide) -> u64 {
    choose|k: u64| is_best(keys, side, k)
}

/// The priority sequence of the levels: the queue of the best price, then
/// that of the next best, and so on.
pub closed spec fn flatten(levels: Levels, side: OrderSide) -> Seq<Order>
    decreases levels.dom().len(),
    when levels.dom().finite()
{
    let k = best_key(levels.dom(), side);
    if levels.dom().contains(k) {
        levels[k]@ + flatten(levels.remove(k), side)
    } else {
        Seq::empty()
    }
}

/// Every queue is non-empty and holds open orders of its own price and of the
/// side `side`.
pub open spec fn levels_valid(levels: Levels, side: OrderSide) -> bool {
    &&& levels.dom().finite()
    &&& forall|k: u64| #[trigger]
        levels.contains_key(k) ==> levels[k]@.len() > 0 && forall|i: int|
            0 <= i < levels[k]@.len() ==> {
                &&& (#[trigger] levels[k]@[i]).price == k
                &&& levels[k]@[i].side == side
                &&& levels[k]@[i].quantity > 0
            }
}

/// A finite, non-empty set of prices has a best one.
pub proof fn lemma_best_exists(keys: Set<u64>, side: OrderSide)
    requires
        keys.finite(),
        keys.len() > 0,
    ensures
        is_best(keys, side, best_key(keys, side)),
    decreases keys.len(),
{
    let x = keys.choose();
    let rest = keys.remove(x);
    if rest.len() == 0 {
        assert forall|j: u64| keys.contains(j) implies j == x by {
            if j != x {
                assert(rest.contains(j));
            }
        }
        assert(is_best(keys, side, x));
    } else {
        lemma_best_exists(rest, side);
        let b = best_key(rest, side);
        if ranks_before(side, x, b) {
            assert forall|j: u64| keys.contains(j) implies !ranks_before(side, j, x) by {
                if j != x {
                    assert(rest.contains(j));
                }
            }
            assert(is_best(keys, side, x));
        } else {
            assert forall|j: u64| keys.contains(j) implies !ranks_before(side, j, b) by {
                if j != x {
                    assert(rest.contains(j));
                }
            }
            assert(is_best(keys, side, b));
        }
    }
}

/// The best price is the only one that is best.
pub proof fn lemma_best_unique(keys: Set<u64>, side: OrderSide, k: u64)
    requires
        is_best(keys, side, k),
    ensures
        best_key(keys, side) == k,
{
    let b = best_key(keys, side);
    assert(is_best(keys, side, b));
}

/// Without levels the sequence is empty.
pub proof fn lemma_flatten_empty(levels: Levels, side: OrderSide)
    requires
        levels.dom() =~= Set::<u64>::empty(),
    ensures
        flatten(levels, side) == Seq::<Order>::empty(),
{
}

/// The sequence starts with the queue of the best price.
pub proof fn lemma_flatten_unfold(levels: Levels, side: OrderSide, k: u64)
    requires
        levels.dom().finite(),
        is_best(levels.dom(), side, k),
    ensures
        flatten(levels, side) == levels[k]@ + flatten(levels.remove(k), side),
{
    lemma_best_unique(levels.dom(), side, k);
}

/// The sequence of valid levels is a valid side, each of its prices is the
/// price of a level, and it is empty only if there are no levels.
pub proof fn lemma_flatten_valid(levels: Levels, side: OrderSide)
    requires
        levels_valid(levels, side),
    ensures
        resting_valid(flatten(levels, side), side),
        forall|i: int|
            0 <= i < flatten(levels, side).len() ==> levels.contains_key(
                (#[trigger] flatten(levels, side)[i]).price,
            ),
        flatten(levels, side).len() == 0 <==> levels.dom().len() == 0,
    decreases levels.dom().len(),
{
    if levels.dom().len() == 0 {
        assert(levels.dom() =~= Set::<u64>::empty());
    } else {
        lemma_best_exists(levels.dom(), side);
        let k = best_key(levels.dom(), side);
        let rest = levels.remove(k);
        lemma_flatten_valid(rest, side);
        let head = levels[k]@;
        let tail = flatten(rest, side);
        let s = flatten(levels, side);
        assert(s == head + tail);
        assert forall|i: int| 0 <= i < s.len() implies (#[trigger] s[i]).side == side
            && s[i].quantity > 0 && levels.contains_key(s[i].price) by {
            if i < head.len() {
                assert(s[i] == head[i]);
            } else {
                assert(s[i] == tail[i - head.len()]);
                assert(rest.contains_key(s[i].price));
            }
        }
        assert forall|i: int, j: int| 0 <= i < j < s.len() implies !ranks_before(
            side,
            s[j].price,
            s[i].price,
        ) by {
            if j < head.len() {
                assert(s[i] == head[i] && s[j] == head[j]);
            } else if i < head.len() {
                assert(s[i] == head[i]);
                assert(s[j] == tail[j - head.len()]);
                assert(rest.contains_key(s[j].price));
            } else {
                assert(s[i] == tail[i - head.len()]);
                assert(s[j] == tail[j - head.len()]);
            }
        }
    }
}

/// An arriving order passes every order that its price does not outrank.
pub proof fn lemma_arrival_behind(a: Seq<Order>, b: Seq<Order>, side: OrderSide, price: u64)
    requires
        forall|i: int| 0 <= i < a.len() ==> !ranks_before(side, price, (#[trigger] a[i]).price),
    ensures
        arrival_index(a + b, side, price) == a.len() + arrival_index(b, side, price),
    decreases a.len(),
{
    if a.len() == 0 {
        assert(a + b =~= b);
    } else {
        assert((a + b)[0] == a[0]);
        assert((a + b).drop_first() =~= a.drop_first() + b);
        assert forall|i: int| 0 <= i < a.drop_first().len() implies !ranks_before(
            side,
            price,
            (#[trigger] a.drop_first()[i]).price,
        ) by {
            assert(a.drop_first()[i] == a[i + 1]);
        }
        lemma_arrival_behind(a.drop_first(), b, side, price);
    }
}

/// An order put in behind a front part of a sequence.
proof fn lemma_insert_behind(a: Seq<Order>, b: Seq<Order>, i: int, o: Order)
    requires
        0 <= i <= b.len(),
    ensures
        (a + b).insert(a.len() + i, o) == a + b.insert(i, o),
        i == 0 ==> (a + b).insert(a.len() + i, o) == a.push(o) + b,
{
    assert((a + b).insert(a.len() + i, o) =~= a + b.insert(i, o));
    if i == 0 {
        assert((a + b).insert(a.len() + i, o) =~= a.push(o) + b);
    }
}

/// Putting an order at the back of the queue of its price, in a new queue if
/// the price has none, puts it at its place of arrival in the sequence.
pub proof fn lemma_flatten_enqueue(
    levels: Levels,
    side: OrderSide,
    o: Order,
    queue: VecDeque<Order>,
)
    requires
        levels_valid(levels, side),
        queue@ == (if levels.contains_key(o.price) {
            levels[o.price]@
        } else {
            Seq::<Order>::empty()
        }).push(o),
    ensures
        flatten(levels.insert(o.price, queue), side) == flatten(levels, side).insert(
            arrival_index(flatten(levels, side), side, o.price),
            o,
        ),
    decreases levels.dom().len(),
{
    let p = o.price;
    let after = levels.insert(p, queue);
    let s = flatten(levels, side);
    let none = Seq::<Order>::empty();
    if levels.dom().len() == 0 {
        assert(levels.dom() =~= Set::<u64>::empty());
        lemma_flatten_empty(levels, side);
        assert(is_best(after.dom(), side, p));
        lemma_flatten_unfold(after, side, p);
        assert(after.remove(p) =~= levels);
        assert(flatten(after, side) == queue@ + none);
        lemma_insert_behind(none, none, 0, o);
        assert(none + none =~= none);
        assert(queue@ =~= none.push(o));
    } else {
        lemma_best_exists(levels.dom(), side);
        let k = best_key(levels.dom(), side);
        let head = levels[k]@;
        let rest = levels.remove(k);
        let tail = flatten(rest, side);
        assert(s == head + tail);
        lemma_flatten_valid(rest, side);
        if ranks_before(side, p, k) {
            assert(!levels.contains_key(p));
            assert(is_best(after.dom(), side, p));
            lemma_flatten_unfold(after, side, p);
            assert(after.remove(p) =~= levels);
            assert(flatten(after, side) == queue@ + s);
            assert(s[0] == head[0]);
            assert(arrival_index(s, side, p) == 0);
            lemma_insert_behind(none, s, 0, o);
            assert(none + s =~= s);
            assert(queue@ =~= none.push(o));
        } else if p == k {
            assert(is_best(after.dom(), side, k));
            lemma_flatten_unfold(after, side, k);
            assert(after.remove(k) =~= rest);
            assert(flatten(after, side) == queue@ + tail);
            lemma_arrival_behind(head, tail, side, p);
            if tail.len() > 0 {
                assert(rest.contains_key(tail[0].price));
                assert(ranks_before(side, p, tail[0].price));
            }
            assert(arrival_index(tail, side, p) == 0);
            lemma_insert_behind(head, tail, 0, o);
        } else {
            assert(is_best(after.dom(), side, k));
            lemma_flatten_unfold(after, side, k);
            assert(after.remove(k) =~= rest.insert(p, queue));
            assert(after[k] == levels[k]);
            lemma_flatten_enqueue(rest, side, o, queue);
            lemma_arrival_behind(head, tail, side, p);
            let i = arrival_index(tail, side, p);
            lemma_arrival_in_range(tail, side, p);
            assert(flatten(after, side) == head + tail.insert(i, o));
            lemma_insert_behind(head, tail, i, o);
        }
    }
}

/// `ks` lists prices in priority order, each once.
pub open spec fn in_key_order(ks: Seq<u64>, side: OrderSide) -> bool {
    forall|i: int, j: int| 0 <= i < j < ks.len() ==> ranks_before(side, ks[i], ks[j])
}

/// The queues of the prices `ks`, one after the other.
pub open spec fn concat(levels: Levels, ks: Seq<u64>) -> Seq<Order>
    decreases ks.len(),
{
    if ks.len() == 0 {
        Seq::empty()
    } else {
        levels[ks[0]]@ + concat(levels, ks.drop_first())
    }
}

/// The queues of `a + b` are those of `a`, then those of `b`.
pub proof fn lemma_concat_append(levels: Levels, a: Seq<u64>, b: Seq<u64>)
    ensures
        concat(levels, a + b) == concat(levels, a) + concat(levels, b),
    decreases a.len(),
{
    if a.len() == 0 {
        assert(a + b =~= b);
    } else {
        assert((a + b).drop_first() =~= a.drop_first() + b);
        lemma_concat_append(levels, a.drop_first(), b);
        assert(concat(levels, a + b) =~= concat(levels, a) + concat(levels, b));
    }
}

/// The queue of one price.
pub proof fn lemma_concat_one(levels: Levels, k: u64)
    ensures
        concat(levels, seq![k]) == levels[k]@,
{
    let one = seq![k];
    assert(one[0] == k);
    assert(concat(levels, one.drop_first()) =~= Seq::<Order>::empty());
    assert(concat(levels, one) =~= levels[k]@);
}

/// Levels that have the same queues at the prices `ks` give the same orders
/// there.
pub proof fn lemma_concat_agrees(a: Levels, b: Levels, ks: Seq<u64>)
    requires
        forall|i: int| 0 <= i < ks.len() ==> a[#[trigger] ks[i]]@ == b[ks[i]]@,
    ensures
        concat(a, ks) == concat(b, ks),
    decreases ks.len(),
{
    if ks.len() > 0 {
        let rest = ks.drop_first();
        assert(a[ks[0]]@ == b[ks[0]]@);
        assert forall|i: int| 0 <= i < rest.len() implies a[#[trigger] rest[i]]@ == b[rest[i]]@ by {
            assert(rest[i] == ks[i + 1]);
        }
        lemma_concat_agrees(a, b, rest);
    }
}

/// The priority sequence is the queues taken in the priority order of their
/// prices.
pub proof fn lemma_flatten_concat(levels: Levels, side: OrderSide, ks: Seq<u64>)
    requires
        levels.dom().finite(),
        in_key_order(ks, side),
        ks.to_set() =~= levels.dom(),
    ensures
        flatten(levels, side) == concat(levels, ks),
    decreases ks.len(),
{
    if ks.len() == 0 {
        assert(levels.dom() =~= Set::<u64>::empty()) by {
            assert forall|k: u64| !levels.dom().contains(k) by {
                if levels.dom().contains(k) {
                    assert(ks.to_set().contains(k));
                }
            }
        }
    } else {
        let k = ks[0];
        let rest = ks.drop_first();
        assert(ks.to_set().contains(k));
        assert forall|j: u64| levels.dom().contains(j) implies !ranks_before(side, j, k) by {
            assert(ks.to_set().contains(j));
            let n = choose|n: int| 0 <= n < ks.len() && ks[n] == j;
            if n > 0 {
                assert(ranks_before(side, ks[0], ks[n]));
            }
        }
        lemma_flatten_unfold(levels, side, k);
        let less = levels.remove(k);
        assert forall|i: int, j: int| 0 <= i < j < rest.len() implies ranks_before(
            side,
            rest[i],
            rest[j],
        ) by {
            assert(rest[i] == ks[i + 1] && rest[j] == ks[j + 1]);
        }
        assert(rest.to_set() =~= less.dom()) by {
            assert forall|j: u64| rest.to_set().contains(j) <==> less.dom().contains(j) by {
                if rest.to_set().contains(j) {
                    let n = choose|n: int| 0 <= n < rest.len() && rest[n] == j;
                    assert(ks[n + 1] == j);
                    assert(ranks_before(side, ks[0], ks[n + 1]));
                    assert(ks.to_set().contains(j));
                }
                if less.dom().contains(j) {
                    assert(ks.to_set().contains(j));
                    let n = choose|n: int| 0 <= n < ks.len() && ks[n] == j;
                    assert(rest[n - 1] == j);
                }
            }
        }
        lemma_flatten_concat(less, side, rest);
        assert forall|i: int| 0 <= i < rest.len() implies less[#[trigger] rest[i]]@
            == levels[rest[i]]@ by {
            assert(rest[i] == ks[i + 1]);
            assert(ranks_before(side, ks[0], ks[i + 1]));
        }
        lemma_concat_agrees(less, levels, rest);
    }
}

} // verus!
