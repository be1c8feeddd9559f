//! Facts about the model that the book's operations rest on.

use crate::model::{
    better, crosses, fill_size, fits_level, index_wf, limited_to, match_book, match_fills,
    match_index, match_remaining, position_of, rank, resting_of, side_wf, total_remaining,
    trades_next, PriceLevel, Taker,
};
use crate::types::{OrderView, Side};
use vstd::prelude::*;

verus! {

/// Reading two runs of levels one after the other is reading their
/// concatenation.
pub proof fn lemma_resting_concat(a: Seq<PriceLevel>, b: Seq<PriceLevel>)
    ensures
        resting_of(a + b) == resting_of(a) + resting_of(b),
    decreases a.len(),
{
    if a.len() == 0 {
        assert(a + b == b);
        assert(resting_of(a) + resting_of(b) == resting_of(b));
    } else {
        assert((a + b).skip(1) == a.skip(1) + b);
        lemma_resting_concat(a.skip(1), b);
        assert(resting_of(a + b) == a[0].orders + (resting_of(a.skip(1)) + resting_of(b)));
        assert(a[0].orders + (resting_of(a.skip(1)) + resting_of(b)) == (a[0].orders + resting_of(
            a.skip(1),
        )) + resting_of(b));
    }
}

/// A single level reads as its queue.
pub proof fn lemma_resting_single(level: PriceLevel)
    ensures
        resting_of(seq![level]) == level.orders,
{
    let one = seq![level];
    assert(one.skip(1) == Seq::<PriceLevel>::empty());
    assert(resting_of(one.skip(1)) == Seq::<OrderView>::empty());
    assert(one[0].orders + Seq::<OrderView>::empty() == level.orders);
}

/// The levels read as those before `i`, the queue of level `i`, and those
/// after it.
pub proof fn lemma_resting_split(levels: Seq<PriceLevel>, i: int)
    requires
        0 <= i < levels.len(),
    ensures
        resting_of(levels) == resting_of(levels.take(i)) + levels[i].orders + resting_of(
            levels.skip(i + 1),
        ),
{
    assert(levels == levels.take(i) + seq![levels[i]] + levels.skip(i + 1));
    lemma_resting_concat(levels.take(i) + seq![levels[i]], levels.skip(i + 1));
    lemma_resting_concat(levels.take(i), seq![levels[i]]);
    lemma_resting_single(levels[i]);
}

/// Replacing level `i` replaces its queue in the reading.
pub proof fn lemma_resting_update(levels: Seq<PriceLevel>, i: int, level: PriceLevel)
    requires
        0 <= i < levels.len(),
    ensures
        resting_of(levels.update(i, level)) == resting_of(levels.take(i)) + level.orders
            + resting_of(levels.skip(i + 1)),
{
    let updated = levels.update(i, level);
    assert(updated.take(i) == levels.take(i));
    assert(updated.skip(i + 1) == levels.skip(i + 1));
    lemma_resting_split(updated, i);
}

/// A level put in at `i` puts its queue in between those before and those
/// from `i` on.
pub proof fn lemma_resting_insert(levels: Seq<PriceLevel>, i: int, level: PriceLevel)
    requires
        0 <= i <= levels.len(),
    ensures
        resting_of(levels.insert(i, level)) == resting_of(levels.take(i)) + level.orders
            + resting_of(levels.skip(i)),
{
    let inserted = levels.insert(i, level);
    assert(inserted.take(i) == levels.take(i));
    assert(inserted.skip(i + 1) == levels.skip(i));
    lemma_resting_split(inserted, i);
}

/// Taking level `i` out takes its queue out of the reading.
pub proof fn lemma_resting_remove(levels: Seq<PriceLevel>, i: int)
    requires
        0 <= i < levels.len(),
    ensures
        resting_of(levels.remove(i)) == resting_of(levels.take(i)) + resting_of(
            levels.skip(i + 1),
        ),
{
    let removed = levels.remove(i);
    assert(removed == levels.take(i) + levels.skip(i + 1));
    lemma_resting_concat(levels.take(i), levels.skip(i + 1));
}

/// Every order in the reading of well-shaped levels sits in some level's
/// queue and fits it.
pub proof fn lemma_resting_member(levels: Seq<PriceLevel>, side: Side, a: int) -> (at: (int, int))
    requires
        side_wf(levels, side),
        0 <= a < resting_of(levels).len(),
    ensures
        0 <= at.0 < levels.len(),
        0 <= at.1 < levels[at.0].orders.len(),
        resting_of(levels)[a] == levels[at.0].orders[at.1],
        resting_of(levels.take(at.0)).len() + at.1 == a,
    decreases levels.len(),
{
    if a < levels[0].orders.len() {
        assert(levels.take(0) == Seq::<PriceLevel>::empty());
        (0, a)
    } else {
        let rest = levels.skip(1);
        assert forall|i: int| 0 <= i < rest.len() implies (#[trigger] rest[i]).orders.len()
            > 0 by {
            assert(rest[i] == levels[i + 1]);
        }
        assert forall|i: int, j: int| 0 <= i < j < rest.len() implies better(
            side,
            (#[trigger] rest[i]).price,
            (#[trigger] rest[j]).price,
        ) by {
            assert(rest[i] == levels[i + 1]);
            assert(rest[j] == levels[j + 1]);
        }
        assert forall|i: int, k: int|
            0 <= i < rest.len() && 0 <= k < rest[i].orders.len() implies fits_level(
            #[trigger] rest[i].orders[k],
            rest[i].price,
            side,
        ) by {
            assert(rest[i] == levels[i + 1]);
        }
        let (i, k) = lemma_resting_member(rest, side, a - levels[0].orders.len());
        assert(rest[i] == levels[i + 1]);
        assert(levels.take(i + 1) == seq![levels[0]] + rest.take(i));
        lemma_resting_concat(seq![levels[0]], rest.take(i));
        lemma_resting_single(levels[0]);
        (i + 1, k)
    }
}


/// A run of levels cut from the front of a well-shaped side is well shaped.
pub proof fn lemma_side_wf_take(levels: Seq<PriceLevel>, side: Side, n: int)
    requires
        side_wf(levels, side),
        0 <= n <= levels.len(),
    ensures
        side_wf(levels.take(n), side),
{
    let cut = levels.take(n);
    assert forall|i: int| 0 <= i < cut.len() implies (#[trigger] cut[i]).orders.len() > 0 by {
        assert(cut[i] == levels[i]);
    }
    assert forall|i: int, j: int| 0 <= i < j < cut.len() implies better(
        side,
        (#[trigger] cut[i]).price,
        (#[trigger] cut[j]).price,
    ) by {
        assert(cut[i] == levels[i]);
        assert(cut[j] == levels[j]);
    }
    assert forall|i: int, k: int|
        0 <= i < cut.len() && 0 <= k < cut[i].orders.len() implies fits_level(
        #[trigger] cut[i].orders[k],
        cut[i].price,
        side,
    ) by {
        assert(cut[i] == levels[i]);
    }
}

/// What is left of a well-shaped side behind its first `n` levels is well
/// shaped.
pub proof fn lemma_side_wf_skip(levels: Seq<PriceLevel>, side: Side, n: int)
    requires
        side_wf(levels, side),
        0 <= n <= levels.len(),
    ensures
        side_wf(levels.skip(n), side),
{
    let cut = levels.skip(n);
    assert forall|i: int| 0 <= i < cut.len() implies (#[trigger] cut[i]).orders.len() > 0 by {
        assert(cut[i] == levels[i + n]);
    }
    assert forall|i: int, j: int| 0 <= i < j < cut.len() implies better(
        side,
        (#[trigger] cut[i]).price,
        (#[trigger] cut[j]).price,
    ) by {
        assert(cut[i] == levels[i + n]);
        assert(cut[j] == levels[j + n]);
    }
    assert forall|i: int, k: int|
        0 <= i < cut.len() && 0 <= k < cut[i].orders.len() implies fits_level(
        #[trigger] cut[i].orders[k],
        cut[i].price,
        side,
    ) by {
        assert(cut[i] == levels[i + n]);
    }
}

/// Every resting order of a well-shaped side is of that side and may rest.
pub proof fn lemma_resting_fit(levels: Seq<PriceLevel>, side: Side)
    requires
        side_wf(levels, side),
    ensures
        forall|a: int|
            0 <= a < resting_of(levels).len() ==> (#[trigger] resting_of(levels)[a]).side == side
                && resting_of(levels)[a].can_rest(),
{
    assert forall|a: int| 0 <= a < resting_of(levels).len() implies (#[trigger] resting_of(
        levels,
    )[a]).side == side && resting_of(levels)[a].can_rest() by {
        let (i, k) = lemma_resting_member(levels, side, a);
        assert(fits_level(levels[i].orders[k], levels[i].price, side));
    }
}

/// The resting orders of the first `n` levels of a well-shaped side are all
/// priced strictly better than any price that those levels beat.
pub proof fn lemma_resting_prefix_better(levels: Seq<PriceLevel>, side: Side, n: int, price: int)
    requires
        side_wf(levels, side),
        0 <= n <= levels.len(),
        forall|j: int| 0 <= j < n ==> better(side, (#[trigger] levels[j]).price, price),
    ensures
        forall|a: int|
            0 <= a < resting_of(levels.take(n)).len() ==> better(
                side,
                (#[trigger] resting_of(levels.take(n))[a]).price,
                price,
            ),
{
    let cut = levels.take(n);
    lemma_side_wf_take(levels, side, n);
    assert forall|a: int| 0 <= a < resting_of(cut).len() implies better(
        side,
        (#[trigger] resting_of(cut)[a]).price,
        price,
    ) by {
        let (i, k) = lemma_resting_member(cut, side, a);
        assert(cut[i] == levels[i]);
        assert(fits_level(cut[i].orders[k], cut[i].price, side));
    }
}

/// The reading of a non-empty well-shaped side starts with the oldest order
/// of its best level.
pub proof fn lemma_resting_front(levels: Seq<PriceLevel>, side: Side)
    requires
        side_wf(levels, side),
        levels.len() > 0,
    ensures
        resting_of(levels).len() > 0,
        resting_of(levels)[0] == levels[0].orders[0],
        resting_of(levels)[0].price == levels[0].price,
{
    assert(levels[0].orders.len() > 0);
    assert(fits_level(levels[0].orders[0], levels[0].price, side));
}

/// An order that joins the queue of the level at its price takes the place
/// in the priority order that its price ranks it.
pub proof fn lemma_rest_existing(levels: Seq<PriceLevel>, side: Side, at: int, order: OrderView)
    requires
        side_wf(levels, side),
        0 <= at < levels.len(),
        levels[at].price == order.price,
        fits_level(order, order.price, side),
    ensures
        ({
            let level = PriceLevel {
                price: levels[at].price,
                orders: levels[at].orders.push(order),
            };
            let after = levels.update(at, level);
            &&& side_wf(after, side)
            &&& 0 <= rank(resting_of(levels), side, order.price) <= resting_of(levels).len()
            &&& resting_of(after) == resting_of(levels).insert(
                rank(resting_of(levels), side, order.price),
                order,
            )
        }),
{
    let level = PriceLevel { price: levels[at].price, orders: levels[at].orders.push(order) };
    let after = levels.update(at, level);
    let head = resting_of(levels.take(at));
    let queue = levels[at].orders;
    let tail = resting_of(levels.skip(at + 1));
    let book = resting_of(levels);
    let n: int = (head.len() + queue.len()) as int;
    lemma_resting_split(levels, at);
    lemma_resting_update(levels, at, level);
    assert(resting_of(after) =~= book.insert(n, order));
    lemma_resting_prefix_better(levels, side, at, order.price);
    assert forall|a: int| 0 <= a < n implies !better(side, order.price, (#[trigger] book[a]).price) by {
        if a < head.len() {
            assert(book[a] == head[a]);
        } else {
            assert(book[a] == queue[a - head.len()]);
            assert(fits_level(levels[at].orders[a - head.len()], levels[at].price, side));
        }
    }
    if n < book.len() {
        let behind = levels.skip(at + 1);
        lemma_side_wf_skip(levels, side, at + 1);
        if behind.len() == 0 {
            assert(tail.len() == 0);
        } else {
            lemma_resting_front(behind, side);
            assert(behind[0] == levels[at + 1]);
            assert(book[n] == tail[0]);
        }
    }
    lemma_rank_is(book, side, order.price, n);
    assert forall|i: int, k: int|
        0 <= i < after.len() && 0 <= k < after[i].orders.len() implies fits_level(
        #[trigger] after[i].orders[k],
        after[i].price,
        side,
    ) by {
        if i == at {
            if k < queue.len() {
                assert(after[i].orders[k] == levels[at].orders[k]);
            }
        } else {
            assert(after[i] == levels[i]);
        }
    }
    assert forall|i: int| 0 <= i < after.len() implies (#[trigger] after[i]).orders.len() > 0 by {
        if i != at {
            assert(after[i] == levels[i]);
        }
    }
    assert forall|i: int, j: int| 0 <= i < j < after.len() implies better(
        side,
        (#[trigger] after[i]).price,
        (#[trigger] after[j]).price,
    ) by {
        assert(after[i].price == levels[i].price);
        assert(after[j].price == levels[j].price);
    }
}

/// An order that opens a level of its own, between the levels at better
/// prices and those at worse ones, takes the place in the priority order
/// that its price ranks it.
pub proof fn lemma_rest_new(levels: Seq<PriceLevel>, side: Side, at: int, order: OrderView)
    requires
        side_wf(levels, side),
        0 <= at <= levels.len(),
        forall|j: int| 0 <= j < at ==> better(side, (#[trigger] levels[j]).price, order.price),
        forall|j: int|
            at <= j < levels.len() ==> better(side, order.price, (#[trigger] levels[j]).price),
        fits_level(order, order.price, side),
    ensures
        ({
            let level = PriceLevel { price: order.price, orders: seq![order] };
            let after = levels.insert(at, level);
            &&& side_wf(after, side)
            &&& 0 <= rank(resting_of(levels), side, order.price) <= resting_of(levels).len()
            &&& resting_of(after) == resting_of(levels).insert(
                rank(resting_of(levels), side, order.price),
                order,
            )
        }),
{
    let level = PriceLevel { price: order.price, orders: seq![order] };
    let after = levels.insert(at, level);
    let head = resting_of(levels.take(at));
    let tail = resting_of(levels.skip(at));
    let book = resting_of(levels);
    let n: int = head.len() as int;
    assert(levels == levels.take(at) + levels.skip(at));
    lemma_resting_concat(levels.take(at), levels.skip(at));
    lemma_resting_insert(levels, at, level);
    assert(resting_of(after) =~= book.insert(n, order));
    lemma_resting_prefix_better(levels, side, at, order.price);
    assert forall|a: int| 0 <= a < n implies !better(side, order.price, (#[trigger] book[a]).price) by {
        assert(book[a] == head[a]);
    }
    if n < book.len() {
        let behind = levels.skip(at);
        lemma_side_wf_skip(levels, side, at);
        if behind.len() == 0 {
            assert(tail.len() == 0);
        } else {
            lemma_resting_front(behind, side);
            assert(behind[0] == levels[at]);
            assert(book[n] == tail[0]);
        }
    }
    lemma_rank_is(book, side, order.price, n);
    assert forall|i: int, k: int|
        0 <= i < after.len() && 0 <= k < after[i].orders.len() implies fits_level(
        #[trigger] after[i].orders[k],
        after[i].price,
        side,
    ) by {
        if i < at {
            assert(after[i] == levels[i]);
        } else if i > at {
            assert(after[i] == levels[i - 1]);
        }
    }
    assert forall|i: int| 0 <= i < after.len() implies (#[trigger] after[i]).orders.len() > 0 by {
        if i < at {
            assert(after[i] == levels[i]);
        } else if i > at {
            assert(after[i] == levels[i - 1]);
        }
    }
    assert forall|i: int, j: int| 0 <= i < j < after.len() implies better(
        side,
        (#[trigger] after[i]).price,
        (#[trigger] after[j]).price,
    ) by {
        if i < at {
            assert(after[i] == levels[i]);
        } else if i > at {
            assert(after[i] == levels[i - 1]);
        }
        if j < at {
            assert(after[j] == levels[j]);
        } else if j > at {
            assert(after[j] == levels[j - 1]);
        }
    }
}

/// The levels of `levels` after the order at place `k` of level `at` has
/// left: the level's queue without it, or no such level where it was alone.
pub open spec fn levels_without(levels: Seq<PriceLevel>, at: int, k: int) -> Seq<PriceLevel> {
    if levels[at].orders.len() > 1 {
        levels.update(
            at,
            PriceLevel { price: levels[at].price, orders: levels[at].orders.remove(k) },
        )
    } else {
        levels.remove(at)
    }
}

/// An order that leaves its queue leaves the priority order at its place,
/// and the side stays well shaped.
pub proof fn lemma_leave(levels: Seq<PriceLevel>, side: Side, at: int, k: int)
    requires
        side_wf(levels, side),
        0 <= at < levels.len(),
        0 <= k < levels[at].orders.len(),
    ensures
        ({
            let place = resting_of(levels.take(at)).len() + k;
            let after = levels_without(levels, at, k);
            &&& 0 <= place < resting_of(levels).len()
            &&& resting_of(levels)[place] == levels[at].orders[k]
            &&& side_wf(after, side)
            &&& resting_of(after) == resting_of(levels).remove(place)
        }),
{
    let head = resting_of(levels.take(at));
    let queue = levels[at].orders;
    let tail = resting_of(levels.skip(at + 1));
    let book = resting_of(levels);
    let place: int = (head.len() + k) as int;
    let after = levels_without(levels, at, k);
    lemma_resting_split(levels, at);
    assert(book[place] == queue[k]);
    if queue.len() > 1 {
        let level = PriceLevel { price: levels[at].price, orders: queue.remove(k) };
        lemma_resting_update(levels, at, level);
        assert(resting_of(after) =~= book.remove(place));
        assert forall|i: int, j: int|
            0 <= i < after.len() && 0 <= j < after[i].orders.len() implies fits_level(
            #[trigger] after[i].orders[j],
            after[i].price,
            side,
        ) by {
            if i == at {
                if j < k {
                    assert(after[i].orders[j] == levels[at].orders[j]);
                } else {
                    assert(after[i].orders[j] == levels[at].orders[j + 1]);
                }
            } else {
                assert(after[i] == levels[i]);
            }
        }
        assert forall|i: int| 0 <= i < after.len() implies (#[trigger] after[i]).orders.len()
            > 0 by {
            if i != at {
                assert(after[i] == levels[i]);
            }
        }
        assert forall|i: int, j: int| 0 <= i < j < after.len() implies better(
            side,
            (#[trigger] after[i]).price,
            (#[trigger] after[j]).price,
        ) by {
            assert(after[i].price == levels[i].price);
            assert(after[j].price == levels[j].price);
        }
    } else {
        lemma_resting_remove(levels, at);
        assert(resting_of(after) =~= book.remove(place));
        assert forall|i: int, j: int|
            0 <= i < after.len() && 0 <= j < after[i].orders.len() implies fits_level(
            #[trigger] after[i].orders[j],
            after[i].price,
            side,
        ) by {
            if i < at {
                assert(after[i] == levels[i]);
            } else {
                assert(after[i] == levels[i + 1]);
            }
        }
        assert forall|i: int| 0 <= i < after.len() implies (#[trigger] after[i]).orders.len()
            > 0 by {
            if i < at {
                assert(after[i] == levels[i]);
            } else {
                assert(after[i] == levels[i + 1]);
            }
        }
        assert forall|i: int, j: int| 0 <= i < j < after.len() implies better(
            side,
            (#[trigger] after[i]).price,
            (#[trigger] after[j]).price,
        ) by {
            if i < at {
                assert(after[i] == levels[i]);
            } else {
                assert(after[i] == levels[i + 1]);
            }
            if j < at {
                assert(after[j] == levels[j]);
            } else {
                assert(after[j] == levels[j + 1]);
            }
        }
    }
}

/// Replacing the front order of the best level by a later state of itself
/// replaces the front of the priority order, and the side stays well
/// shaped.
pub proof fn lemma_front_update(levels: Seq<PriceLevel>, side: Side, order: OrderView)
    requires
        side_wf(levels, side),
        levels.len() > 0,
        fits_level(order, levels[0].price, side),
    ensures
        ({
            let level = PriceLevel {
                price: levels[0].price,
                orders: levels[0].orders.update(0, order),
            };
            let after = levels.update(0, level);
            &&& side_wf(after, side)
            &&& resting_of(after) == resting_of(levels).update(0, order)
        }),
{
    let level = PriceLevel { price: levels[0].price, orders: levels[0].orders.update(0, order) };
    let after = levels.update(0, level);
    assert(after.skip(1) == levels.skip(1));
    assert(resting_of(after) =~= resting_of(levels).update(0, order));
    assert forall|i: int, j: int|
        0 <= i < after.len() && 0 <= j < after[i].orders.len() implies fits_level(
        #[trigger] after[i].orders[j],
        after[i].price,
        side,
    ) by {
        if i == 0 {
            if j > 0 {
                assert(after[i].orders[j] == levels[0].orders[j]);
            }
        } else {
            assert(after[i] == levels[i]);
        }
    }
    assert forall|i: int| 0 <= i < after.len() implies (#[trigger] after[i]).orders.len() > 0 by {
        if i != 0 {
            assert(after[i] == levels[i]);
        }
    }
    assert forall|i: int, j: int| 0 <= i < j < after.len() implies better(
        side,
        (#[trigger] after[i]).price,
        (#[trigger] after[j]).price,
    ) by {
        assert(after[i].price == levels[i].price);
        assert(after[j].price == levels[j].price);
    }
}

/// The total of a queue of orders with nothing negative left is at least
/// the total of any front part of it.
pub proof fn lemma_total_grows(orders: Seq<OrderView>, n: int)
    requires
        0 <= n <= orders.len(),
        forall|k: int| 0 <= k < orders.len() ==> (#[trigger] orders[k]).remaining_quantity >= 0,
    ensures
        0 <= total_remaining(orders.take(n)) <= total_remaining(orders),
    decreases orders.len() - n,
{
    if n == orders.len() {
        assert(orders.take(n) =~= orders);
        lemma_total_not_negative(orders);
    } else {
        let next = orders.take(n + 1);
        assert(next.drop_last() =~= orders.take(n));
        assert(next.last() == orders[n]);
        lemma_total_not_negative(orders.take(n));
        lemma_total_grows(orders, n + 1);
    }
}

/// The total of a queue of orders with nothing negative left is not
/// negative.
pub proof fn lemma_total_not_negative(orders: Seq<OrderView>)
    requires
        forall|k: int| 0 <= k < orders.len() ==> (#[trigger] orders[k]).remaining_quantity >= 0,
    ensures
        0 <= total_remaining(orders),
    decreases orders.len(),
{
    if orders.len() > 0 {
        let front = orders.drop_last();
        assert forall|k: int| 0 <= k < front.len() implies (#[trigger] front[k]).remaining_quantity
            >= 0 by {
            assert(front[k] == orders[k]);
        }
        lemma_total_not_negative(front);
    }
}

/// The rank of a price is the place `n` where every order before it is at
/// a price no worse and the order at it, if any, at a worse one.
pub proof fn lemma_rank_is(book: Seq<OrderView>, side: Side, price: int, n: int)
    requires
        0 <= n <= book.len(),
        forall|a: int| 0 <= a < n ==> !better(side, price, (#[trigger] book[a]).price),
        n < book.len() ==> better(side, price, book[n].price),
    ensures
        rank(book, side, price) == n,
    decreases n,
{
    if n > 0 {
        let rest = book.skip(1);
        assert(!better(side, price, book[0].price));
        assert forall|a: int| 0 <= a < n - 1 implies !better(
            side,
            price,
            (#[trigger] rest[a]).price,
        ) by {
            assert(rest[a] == book[a + 1]);
        }
        if n < book.len() {
            assert(rest[n - 1] == book[n]);
        }
        lemma_rank_is(rest, side, price, n - 1);
    }
}

/// The first order with a given id is at `n` where the order there has the
/// id and none before it has.
pub proof fn lemma_position_is(book: Seq<OrderView>, id: u64, n: int)
    requires
        0 <= n <= book.len(),
        forall|a: int| 0 <= a < n ==> (#[trigger] book[a]).id != id,
        n < book.len() ==> book[n].id == id,
    ensures
        position_of(book, id) == n,
    decreases n,
{
    if n > 0 {
        let rest = book.skip(1);
        assert(book[0].id != id);
        assert forall|a: int| 0 <= a < n - 1 implies (#[trigger] rest[a]).id != id by {
            assert(rest[a] == book[a + 1]);
        }
        if n < book.len() {
            assert(rest[n - 1] == book[n]);
        }
        lemma_position_is(rest, id, n - 1);
    }
}

/// The index stays in step when an order with an unknown id comes to rest
/// and is recorded.
pub proof fn lemma_index_insert(
    all: Seq<OrderView>,
    index: Map<u64, OrderView>,
    at: int,
    order: OrderView,
)
    requires
        index_wf(all, index),
        0 <= at <= all.len(),
        !index.contains_key(order.id),
    ensures
        index_wf(all.insert(at, order), index.insert(order.id, order)),
{
    let all2 = all.insert(at, order);
    let index2 = index.insert(order.id, order);
    assert forall|a: int| 0 <= a < all2.len() implies index2.contains_key(
        (#[trigger] all2[a]).id,
    ) && index2[all2[a].id] == all2[a] by {
        if a < at {
            assert(all2[a] == all[a]);
        } else if a > at {
            assert(all2[a] == all[a - 1]);
        }
    }
    assert forall|a: int, b: int| 0 <= a < b < all2.len() implies (#[trigger] all2[a]).id != (
    #[trigger] all2[b]).id by {
        if a < at {
            assert(all2[a] == all[a]);
        } else if a > at {
            assert(all2[a] == all[a - 1]);
        }
        if b < at {
            assert(all2[b] == all[b]);
        } else if b > at {
            assert(all2[b] == all[b - 1]);
        }
    }
    assert forall|id: u64|
        index2.contains_key(id) && (#[trigger] index2[id]).can_rest() implies all2.contains(
        index2[id],
    ) by {
        if id == order.id {
            assert(all2[at] == order);
        } else {
            assert(index[id].can_rest());
            let a = choose|a: int| 0 <= a < all.len() && all[a] == index[id];
            if a < at {
                assert(all2[a] == all[a]);
            } else {
                assert(all2[a + 1] == all[a]);
            }
        }
    }
}

/// The index stays in step when the order resting at `at` leaves the book
/// and `record` is filed under its id, a record that may not rest.
pub proof fn lemma_index_leave(
    all: Seq<OrderView>,
    index: Map<u64, OrderView>,
    at: int,
    record: OrderView,
)
    requires
        index_wf(all, index),
        0 <= at < all.len(),
        record.id == all[at].id,
        !record.can_rest(),
    ensures
        index_wf(all.remove(at), index.insert(record.id, record)),
{
    let all2 = all.remove(at);
    let index2 = index.insert(record.id, record);
    assert forall|a: int| 0 <= a < all2.len() implies index2.contains_key(
        (#[trigger] all2[a]).id,
    ) && index2[all2[a].id] == all2[a] by {
        if a < at {
            assert(all2[a] == all[a]);
        } else {
            assert(all2[a] == all[a + 1]);
        }
    }
    assert forall|a: int, b: int| 0 <= a < b < all2.len() implies (#[trigger] all2[a]).id != (
    #[trigger] all2[b]).id by {
        if a < at {
            assert(all2[a] == all[a]);
        } else {
            assert(all2[a] == all[a + 1]);
        }
        if b < at {
            assert(all2[b] == all[b]);
        } else {
            assert(all2[b] == all[b + 1]);
        }
    }
    assert forall|id: u64|
        index2.contains_key(id) && (#[trigger] index2[id]).can_rest() implies all2.contains(
        index2[id],
    ) by {
        assert(id != record.id);
        assert(index[id].can_rest());
        let a = choose|a: int| 0 <= a < all.len() && all[a] == index[id];
        assert(all[a].id == id);
        if a < at {
            assert(all2[a] == all[a]);
        } else {
            assert(all2[a - 1] == all[a]);
        }
    }
}

/// The index stays in step when the order resting at `at` leaves the book
/// and its id is forgotten.
pub proof fn lemma_index_forget(all: Seq<OrderView>, index: Map<u64, OrderView>, at: int)
    requires
        index_wf(all, index),
        0 <= at < all.len(),
    ensures
        index_wf(all.remove(at), index.remove(all[at].id)),
{
    let all2 = all.remove(at);
    let gone = all[at].id;
    let index2 = index.remove(gone);
    assert forall|a: int| 0 <= a < all2.len() implies index2.contains_key(
        (#[trigger] all2[a]).id,
    ) && index2[all2[a].id] == all2[a] by {
        if a < at {
            assert(all2[a] == all[a]);
        } else {
            assert(all2[a] == all[a + 1]);
        }
    }
    assert forall|a: int, b: int| 0 <= a < b < all2.len() implies (#[trigger] all2[a]).id != (
    #[trigger] all2[b]).id by {
        if a < at {
            assert(all2[a] == all[a]);
        } else {
            assert(all2[a] == all[a + 1]);
        }
        if b < at {
            assert(all2[b] == all[b]);
        } else {
            assert(all2[b] == all[b + 1]);
        }
    }
    assert forall|id: u64|
        index2.contains_key(id) && (#[trigger] index2[id]).can_rest() implies all2.contains(
        index2[id],
    ) by {
        assert(index[id].can_rest());
        let a = choose|a: int| 0 <= a < all.len() && all[a] == index[id];
        assert(all[a].id == id);
        if a < at {
            assert(all2[a] == all[a]);
        } else {
            assert(all2[a - 1] == all[a]);
        }
    }
}

/// The index stays in step when the order resting at `at` is replaced, in
/// the book and in the index, by a later state of itself.
pub proof fn lemma_index_update(
    all: Seq<OrderView>,
    index: Map<u64, OrderView>,
    at: int,
    order: OrderView,
)
    requires
        index_wf(all, index),
        0 <= at < all.len(),
        order.id == all[at].id,
    ensures
        index_wf(all.update(at, order), index.insert(order.id, order)),
{
    let all2 = all.update(at, order);
    let index2 = index.insert(order.id, order);
    assert forall|a: int| 0 <= a < all2.len() implies index2.contains_key(
        (#[trigger] all2[a]).id,
    ) && index2[all2[a].id] == all2[a] by {
        if a != at {
            assert(all2[a] == all[a]);
        }
    }
    assert forall|a: int, b: int| 0 <= a < b < all2.len() implies (#[trigger] all2[a]).id != (
    #[trigger] all2[b]).id by {
        assert(all2[a].id == all[a].id);
        assert(all2[b].id == all[b].id);
    }
    assert forall|id: u64|
        index2.contains_key(id) && (#[trigger] index2[id]).can_rest() implies all2.contains(
        index2[id],
    ) by {
        if id == order.id {
            assert(all2[at] == order);
        } else {
            assert(index[id].can_rest());
            let a = choose|a: int| 0 <= a < all.len() && all[a] == index[id];
            assert(all[a].id == id);
            assert(all2[a] == all[a]);
        }
    }
}

/// The index stays in step when a record that may not rest is filed under
/// an id that does not rest.
pub proof fn lemma_index_record(all: Seq<OrderView>, index: Map<u64, OrderView>, record: OrderView)
    requires
        index_wf(all, index),
        !record.can_rest(),
        forall|a: int| 0 <= a < all.len() ==> (#[trigger] all[a]).id != record.id,
    ensures
        index_wf(all, index.insert(record.id, record)),
{
    let index2 = index.insert(record.id, record);
    assert forall|id: u64|
        index2.contains_key(id) && (#[trigger] index2[id]).can_rest() implies all.contains(
        index2[id],
    ) by {
        assert(index[id].can_rest());
    }
}


/// The front of the book after one fill of `remaining` against it: the maker
/// is gone where it was filled, and stays with less where it was not.
pub open spec fn book_after_fill(remaining: int, book: Seq<OrderView>) -> Seq<OrderView> {
    let size = fill_size(remaining, book[0]);
    if size == book[0].remaining_quantity {
        book.remove(0)
    } else {
        book.update(0, book[0].filled_by(size))
    }
}

/// A match is its first fill followed by the match of what is left against
/// the book as that fill left it.
pub proof fn lemma_match_step(
    taker: Taker,
    remaining: int,
    book: Seq<OrderView>,
    index: Map<u64, OrderView>,
)
    requires
        trades_next(taker, remaining, book),
        book[0].remaining_quantity > 0,
    ensures
        ({
            let size = fill_size(remaining, book[0]);
            let left = remaining - size;
            let rest = book_after_fill(remaining, book);
            let next = index.insert(book[0].id, book[0].filled_by(size));
            &&& match_fills(taker, remaining, book) == seq![
                crate::model::fill_against(taker, remaining, book[0]),
            ] + match_fills(taker, left, rest)
            &&& match_remaining(taker, remaining, book) == match_remaining(taker, left, rest)
            &&& match_book(taker, remaining, book) == match_book(taker, left, rest)
            &&& match_index(taker, remaining, book, index) == match_index(taker, left, rest, next)
        }),
{
    let size = fill_size(remaining, book[0]);
    let rest = book_after_fill(remaining, book);
    let next = index.insert(book[0].id, book[0].filled_by(size));
    if size == book[0].remaining_quantity {
        assert(rest =~= book.skip(1));
    } else {
        let none = Seq::<crate::trade_history::Fill>::empty();
        assert(match_fills(taker, 0, book.skip(1)) == none);
        assert(match_fills(taker, 0, rest) == none);
        assert(match_remaining(taker, 0, book.skip(1)) == 0);
        assert(match_remaining(taker, 0, rest) == 0);
        assert(match_book(taker, 0, rest) == rest);
        assert(match_index(taker, 0, book.skip(1), next) == next);
        assert(match_index(taker, 0, rest, next) == next);
    }
}

/// A match that goes on after trading level by level is the match as a
/// whole: where `taker` trades at `price`, matching it as an order limited
/// to `price` and then matching what is left of it against what is left of
/// the book gives the fills, the remainder, the book and the index of
/// matching it outright.
pub proof fn lemma_match_by_level(
    taker: Taker,
    price: int,
    remaining: int,
    book: Seq<OrderView>,
    index: Map<u64, OrderView>,
)
    requires
        crosses(taker, price),
    ensures
        ({
            let level = limited_to(taker, price);
            let left = match_remaining(level, remaining, book);
            let rest = match_book(level, remaining, book);
            &&& match_fills(taker, remaining, book) == match_fills(level, remaining, book)
                + match_fills(taker, left, rest)
            &&& match_remaining(taker, remaining, book) == match_remaining(taker, left, rest)
            &&& match_book(taker, remaining, book) == match_book(taker, left, rest)
            &&& match_index(taker, remaining, book, index) == match_index(
                taker,
                left,
                rest,
                match_index(level, remaining, book, index),
            )
        }),
    decreases book.len(),
{
    let level = limited_to(taker, price);
    if trades_next(level, remaining, book) {
        assert(crosses(taker, book[0].price));
        let size = fill_size(remaining, book[0]);
        if remaining < book[0].remaining_quantity {
            let rest = book.update(0, book[0].filled_by(remaining));
            let none = Seq::<crate::trade_history::Fill>::empty();
            assert(match_fills(level, 0, book.skip(1)) == none);
            assert(match_fills(taker, 0, book.skip(1)) == none);
            assert(match_fills(taker, 0, rest) == none);
            assert(match_remaining(level, 0, book.skip(1)) == 0);
            assert(match_remaining(taker, 0, book.skip(1)) == 0);
            assert(match_remaining(taker, 0, rest) == 0);
            assert(match_book(taker, 0, rest) == rest);
            let next = index.insert(book[0].id, book[0].filled_by(size));
            assert(match_index(level, 0, book.skip(1), next) == next);
            assert(match_index(taker, 0, book.skip(1), next) == next);
            assert(match_index(taker, 0, rest, next) == next);
            assert(match_fills(level, remaining, book) + none =~= match_fills(
                taker,
                remaining,
                book,
            ));
        } else {
            lemma_match_by_level(
                taker,
                price,
                remaining - size,
                book.skip(1),
                index.insert(book[0].id, book[0].filled_by(size)),
            );
            let left = match_remaining(level, remaining, book);
            let rest = match_book(level, remaining, book);
            assert(match_fills(taker, remaining, book) =~= match_fills(level, remaining, book)
                + match_fills(taker, left, rest));
        }
    } else {
        assert(Seq::empty() + match_fills(taker, remaining, book) =~= match_fills(
            taker,
            remaining,
            book,
        ));
    }
}

/// A match records makers only: it brings no new id into the index.
pub proof fn lemma_match_index_keys(
    taker: Taker,
    remaining: int,
    book: Seq<OrderView>,
    index: Map<u64, OrderView>,
)
    requires
        forall|a: int| 0 <= a < book.len() ==> index.contains_key((#[trigger] book[a]).id),
    ensures
        match_index(taker, remaining, book, index).dom() == index.dom(),
    decreases book.len(),
{
    if trades_next(taker, remaining, book) {
        let size = fill_size(remaining, book[0]);
        let next = index.insert(book[0].id, book[0].filled_by(size));
        let rest = book.skip(1);
        assert forall|a: int| 0 <= a < rest.len() implies next.contains_key(
            (#[trigger] rest[a]).id,
        ) by {
            assert(rest[a] == book[a + 1]);
        }
        lemma_match_index_keys(taker, remaining - size, rest, next);
        assert(next.dom() =~= index.dom());
    }
}

} // verus!
