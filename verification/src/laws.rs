//! What holds of every match, stated over the model and proved from it.

use crate::lemmas::{
    lemma_resting_fit, lemma_resting_front, lemma_resting_member, lemma_side_wf_skip,
};
use crate::matchingengine::{newer, MatchingEngine};
use crate::model::{
    better, crosses, fits_level, index_wf, match_book, match_fills, match_index, match_remaining,
    rank, resting_of, side_wf, taker_of, total_remaining, trades_next, PriceLevel, Taker,
};
use crate::trade_history::{fills_of, Fill};
use crate::types::{status_for, OrderStatus, OrderType, OrderView, Side};
use vstd::prelude::*;

verus! {

/// The sum of the quantities of `fills`.
pub open spec fn filled_total(fills: Seq<Fill>) -> int
    decreases fills.len(),
{
    if fills.len() == 0 {
        0
    } else {
        fills[0].quantity + filled_total(fills.skip(1))
    }
}

/// Whether every order in `book` has something left to fill.
pub open spec fn all_open(book: Seq<OrderView>) -> bool {
    forall|a: int| 0 <= a < book.len() ==> (#[trigger] book[a]).remaining_quantity > 0
}

/// Whether no two orders in `book` share an id.
pub open spec fn distinct_ids(book: Seq<OrderView>) -> bool {
    forall|a: int, b: int| 0 <= a < b < book.len() ==> (#[trigger] book[a]).id != (
    #[trigger] book[b]).id
}

/// Whether `book` is in price priority for `side`: no order is priced
/// strictly better than one ahead of it.
pub open spec fn in_priority(book: Seq<OrderView>, side: Side) -> bool {
    forall|a: int, b: int|
        0 <= a < b < book.len() ==> !better(
            side,
            (#[trigger] book[b]).price,
            (#[trigger] book[a]).price,
        )
}

/// The resting orders of a well-shaped side are in price priority.
pub proof fn law_resting_in_priority(levels: Seq<PriceLevel>, side: Side)
    requires
        side_wf(levels, side),
    ensures
        in_priority(resting_of(levels), side),
        all_open(resting_of(levels)),
    decreases levels.len(),
{
    let book = resting_of(levels);
    lemma_resting_fit(levels, side);
    if levels.len() > 0 {
        let rest = levels.skip(1);
        let first = levels[0].orders;
        lemma_side_wf_skip(levels, side, 1);
        law_resting_in_priority(rest, side);
        assert forall|a: int, b: int| 0 <= a < b < book.len() implies !better(
            side,
            (#[trigger] book[b]).price,
            (#[trigger] book[a]).price,
        ) by {
            if b < first.len() {
                assert(fits_level(levels[0].orders[a], levels[0].price, side));
                assert(fits_level(levels[0].orders[b], levels[0].price, side));
            } else if a < first.len() {
                assert(fits_level(levels[0].orders[a], levels[0].price, side));
                let at = lemma_resting_member(rest, side, b - first.len());
                assert(rest[at.0] == levels[at.0 + 1]);
                assert(fits_level(rest[at.0].orders[at.1], rest[at.0].price, side));
                assert(better(side, levels[0].price, levels[at.0 + 1].price));
            } else {
                assert(book[a] == resting_of(rest)[a - first.len()]);
                assert(book[b] == resting_of(rest)[b - first.len()]);
            }
        }
    }
}

/// Every resting order of a well-shaped side keeps the invariant of an
/// order: it has between nothing and all of its quantity left, and the
/// status that goes with that.
pub proof fn law_resting_orders_well_formed(levels: Seq<PriceLevel>, side: Side)
    requires
        side_wf(levels, side),
    ensures
        forall|a: int|
            0 <= a < resting_of(levels).len() ==> (#[trigger] resting_of(levels)[a]).well_formed(),
{
    lemma_resting_fit(levels, side);
}

/// The fills of a match follow the book: the i-th fill is against the
/// i-th resting order, at that order's price, for no more than is left of
/// it, and every fill but the last takes all that is left of its maker.
pub proof fn law_fills_follow_book(taker: Taker, remaining: int, book: Seq<OrderView>)
    requires
        all_open(book),
    ensures
        match_fills(taker, remaining, book).len() <= book.len(),
        forall|i: int|
            0 <= i < match_fills(taker, remaining, book).len() ==> {
                let fill = #[trigger] match_fills(taker, remaining, book)[i];
                &&& fill.maker_order_id == book[i].id
                &&& fill.taker_order_id == taker.id
                &&& fill.price == book[i].price
                &&& fill.side == taker.side
                &&& 0 < fill.quantity <= book[i].remaining_quantity
                &&& i + 1 < match_fills(taker, remaining, book).len() ==> fill.quantity
                    == book[i].remaining_quantity
            },
    decreases book.len(),
{
    let fills = match_fills(taker, remaining, book);
    if trades_next(taker, remaining, book) {
        let rest = book.skip(1);
        let size = crate::model::fill_size(remaining, book[0]);
        assert forall|a: int| 0 <= a < rest.len() implies (#[trigger] rest[a]).remaining_quantity
            > 0 by {
            assert(rest[a] == book[a + 1]);
        }
        law_fills_follow_book(taker, remaining - size, rest);
        let later = match_fills(taker, remaining - size, rest);
        assert forall|i: int| 0 <= i < fills.len() implies ({
            let fill = #[trigger] fills[i];
            &&& fill.maker_order_id == book[i].id
            &&& fill.taker_order_id == taker.id
            &&& fill.price == book[i].price
            &&& fill.side == taker.side
            &&& 0 < fill.quantity <= book[i].remaining_quantity
            &&& i + 1 < fills.len() ==> fill.quantity == book[i].remaining_quantity
        }) by {
            if i > 0 {
                assert(fills[i] == later[i - 1]);
                assert(rest[i - 1] == book[i]);
            } else if fills.len() > 1 {
                assert(later.len() > 0);
                assert(trades_next(taker, remaining - size, rest));
            }
        }
    }
}

/// Price priority: a match trades with a price only after it has taken
/// everything that rests at a better one. Whenever a fill is made at some
/// price, every resting order at a strictly better price has been filled
/// completely by an earlier fill.
pub proof fn law_price_priority(
    levels: Seq<PriceLevel>,
    side: Side,
    taker: Taker,
    remaining: int,
)
    requires
        side_wf(levels, side),
    ensures
        ({
            let book = resting_of(levels);
            let fills = match_fills(taker, remaining, book);
            forall|j: int, a: int|
                0 <= j < fills.len() && 0 <= a < book.len() && better(
                    side,
                    (#[trigger] book[a]).price,
                    (#[trigger] fills[j]).price,
                ) ==> a < j && fills[a].maker_order_id == book[a].id && fills[a].quantity
                    == book[a].remaining_quantity
        }),
{
    let book = resting_of(levels);
    let fills = match_fills(taker, remaining, book);
    law_resting_in_priority(levels, side);
    law_fills_follow_book(taker, remaining, book);
    assert forall|j: int, a: int|
        0 <= j < fills.len() && 0 <= a < book.len() && better(
            side,
            (#[trigger] book[a]).price,
            (#[trigger] fills[j]).price,
        ) implies a < j && fills[a].maker_order_id == book[a].id && fills[a].quantity
        == book[a].remaining_quantity by {
        assert(fills[j].price == book[j].price);
        if a > j {
            assert(!better(side, book[a].price, book[j].price));
        }
        assert(a < j);
        let earlier = fills[a];
        assert(earlier.maker_order_id == book[a].id);
    }
}

/// First in, first out within a price: of two orders resting in the same
/// queue, the later one trades only after the earlier one has been filled
/// completely. `first` and `second` are places in the priority order of a
/// side, `first` ahead of `second`.
pub proof fn law_fifo_within_level(
    taker: Taker,
    remaining: int,
    book: Seq<OrderView>,
    first: int,
    second: int,
)
    requires
        all_open(book),
        0 <= first < second < book.len(),
        second < match_fills(taker, remaining, book).len(),
    ensures
        match_fills(taker, remaining, book)[first].maker_order_id == book[first].id,
        match_fills(taker, remaining, book)[first].quantity == book[first].remaining_quantity,
        match_fills(taker, remaining, book)[second].maker_order_id == book[second].id,
{
    law_fills_follow_book(taker, remaining, book);
    let fills = match_fills(taker, remaining, book);
    let early = fills[first];
    let late = fills[second];
}

/// Arrival order at rest: an order that comes to rest goes behind every
/// order already resting at its price, and ahead of every one at a worse
/// price.
pub proof fn law_rests_behind_equals(book: Seq<OrderView>, side: Side, price: int)
    requires
        in_priority(book, side),
    ensures
        0 <= rank(book, side, price) <= book.len(),
        forall|a: int|
            0 <= a < rank(book, side, price) ==> !better(side, price, (#[trigger] book[a]).price),
        forall|a: int|
            rank(book, side, price) <= a < book.len() ==> better(
                side,
                price,
                (#[trigger] book[a]).price,
            ),
    decreases book.len(),
{
    if book.len() == 0 {
    } else if better(side, price, book[0].price) {
        assert forall|a: int| 0 <= a < book.len() implies better(
            side,
            price,
            (#[trigger] book[a]).price,
        ) by {
            if a > 0 {
                assert(!better(side, book[a].price, book[0].price));
            }
        }
    } else {
        let rest = book.skip(1);
        assert forall|a: int, b: int| 0 <= a < b < rest.len() implies !better(
            side,
            (#[trigger] rest[b]).price,
            (#[trigger] rest[a]).price,
        ) by {
            assert(rest[a] == book[a + 1]);
            assert(rest[b] == book[b + 1]);
        }
        law_rests_behind_equals(rest, side, price);
        let n = rank(book, side, price);
        assert forall|a: int| 0 <= a < n implies !better(side, price, (#[trigger] book[a]).price) by {
            if a > 0 {
                assert(rest[a - 1] == book[a]);
            }
        }
        assert forall|a: int| n <= a < book.len() implies better(
            side,
            price,
            (#[trigger] book[a]).price,
        ) by {
            assert(rest[a - 1] == book[a]);
        }
    }
}

/// Conservation on the taker's side: the fills of a match add up to what
/// the match took off the incoming order, which is never more than it had
/// left to fill.
pub proof fn law_taker_conservation(taker: Taker, remaining: int, book: Seq<OrderView>)
    requires
        all_open(book),
        remaining >= 0,
    ensures
        filled_total(match_fills(taker, remaining, book)) == remaining - match_remaining(
            taker,
            remaining,
            book,
        ),
        0 <= match_remaining(taker, remaining, book) <= remaining,
        0 <= filled_total(match_fills(taker, remaining, book)) <= remaining,
    decreases book.len(),
{
    if trades_next(taker, remaining, book) {
        let rest = book.skip(1);
        let size = crate::model::fill_size(remaining, book[0]);
        assert forall|a: int| 0 <= a < rest.len() implies (#[trigger] rest[a]).remaining_quantity
            > 0 by {
            assert(rest[a] == book[a + 1]);
        }
        law_taker_conservation(taker, remaining - size, rest);
        let fills = match_fills(taker, remaining, book);
        assert(fills.skip(1) =~= match_fills(taker, remaining - size, rest));
    }
}

/// A match makes at most one fill against each resting order.
pub proof fn law_one_fill_each(taker: Taker, remaining: int, book: Seq<OrderView>)
    ensures
        match_fills(taker, remaining, book).len() <= book.len(),
    decreases book.len(),
{
    if trades_next(taker, remaining, book) {
        law_one_fill_each(
            taker,
            remaining - crate::model::fill_size(remaining, book[0]),
            book.skip(1),
        );
    }
}

/// A match leaves alone the record of every order it did not trade with:
/// the record under an id that is not that of a maker is as it was.
pub proof fn law_other_records_kept(
    taker: Taker,
    remaining: int,
    book: Seq<OrderView>,
    index: Map<u64, OrderView>,
    id: u64,
)
    requires
        forall|i: int|
            0 <= i < match_fills(taker, remaining, book).len() && i < book.len() ==> (
            #[trigger] book[i]).id != id,
    ensures
        match_index(taker, remaining, book, index).contains_key(id) <==> index.contains_key(id),
        index.contains_key(id) ==> match_index(taker, remaining, book, index)[id] == index[id],
    decreases book.len(),
{
    if trades_next(taker, remaining, book) {
        let rest = book.skip(1);
        let size = crate::model::fill_size(remaining, book[0]);
        let next = index.insert(book[0].id, book[0].filled_by(size));
        let fills = match_fills(taker, remaining, book);
        let later = match_fills(taker, remaining - size, rest);
        assert(fills.len() == later.len() + 1);
        assert(book[0].id != id);
        law_one_fill_each(taker, remaining - size, rest);
        assert forall|i: int| 0 <= i < later.len() && i < rest.len() implies (
        #[trigger] rest[i]).id != id by {
            assert(rest[i] == book[i + 1]);
        }
        law_other_records_kept(taker, remaining - size, rest, next, id);
    }
}

/// Conservation on the makers' side: after a match, each maker that
/// traded is recorded with what it had left before less the fill it
/// received, and with the status that goes with that.
pub proof fn law_maker_conservation(
    taker: Taker,
    remaining: int,
    book: Seq<OrderView>,
    index: Map<u64, OrderView>,
)
    requires
        all_open(book),
        distinct_ids(book),
    ensures
        forall|i: int|
            0 <= i < match_fills(taker, remaining, book).len() ==> match_index(
                taker,
                remaining,
                book,
                index,
            ).contains_key((#[trigger] book[i]).id) && match_index(
                taker,
                remaining,
                book,
                index,
            )[book[i].id] == book[i].filled_by(match_fills(taker, remaining, book)[i].quantity),
    decreases book.len(),
{
    let fills = match_fills(taker, remaining, book);
    let after = match_index(taker, remaining, book, index);
    if trades_next(taker, remaining, book) {
        let rest = book.skip(1);
        let size = crate::model::fill_size(remaining, book[0]);
        let next = index.insert(book[0].id, book[0].filled_by(size));
        let later = match_fills(taker, remaining - size, rest);
        assert forall|a: int| 0 <= a < rest.len() implies (#[trigger] rest[a]).remaining_quantity
            > 0 by {
            assert(rest[a] == book[a + 1]);
        }
        assert forall|a: int, b: int| 0 <= a < b < rest.len() implies (#[trigger] rest[a]).id != (
        #[trigger] rest[b]).id by {
            assert(rest[a] == book[a + 1]);
            assert(rest[b] == book[b + 1]);
        }
        law_maker_conservation(taker, remaining - size, rest, next);
        law_fills_follow_book(taker, remaining - size, rest);
        assert(fills.len() == later.len() + 1);
        assert forall|k: int| 0 <= k < later.len() implies (#[trigger] rest[k]).id
            != book[0].id by {
            assert(rest[k] == book[k + 1]);
        }
        law_other_records_kept(taker, remaining - size, rest, next, book[0].id);
        assert(after == match_index(taker, remaining - size, rest, next));
        assert forall|i: int| 0 <= i < fills.len() implies after.contains_key(
            (#[trigger] book[i]).id,
        ) && after[book[i].id] == book[i].filled_by(fills[i].quantity) by {
            if i > 0 {
                assert(rest[i - 1] == book[i]);
                assert(fills[i] == later[i - 1]);
            } else {
                assert(fills[0].quantity == size);
                assert(next[book[0].id] == book[0].filled_by(size));
            }
        }
    }
}

/// What rests after a match is the book without the makers that were
/// filled, in the order it had: the orders behind the last fill are
/// untouched, and an order is changed only where it is the one maker that
/// was filled in part, which stays at the front.
pub proof fn law_book_after_match(taker: Taker, remaining: int, book: Seq<OrderView>)
    requires
        all_open(book),
    ensures
        ({
            let fills = match_fills(taker, remaining, book);
            let after = match_book(taker, remaining, book);
            let partial = fills.len() > 0 && fills.last().quantity < book[fills.len()
                - 1].remaining_quantity;
            &&& partial ==> after == book.skip(fills.len() - 1).update(
                0,
                book[fills.len() - 1].filled_by(fills.last().quantity),
            )
            &&& !partial ==> after == book.skip(fills.len() as int)
        }),
    decreases book.len(),
{
    let fills = match_fills(taker, remaining, book);
    let after = match_book(taker, remaining, book);
    law_fills_follow_book(taker, remaining, book);
    if trades_next(taker, remaining, book) {
        let rest = book.skip(1);
        let size = crate::model::fill_size(remaining, book[0]);
        let later = match_fills(taker, remaining - size, rest);
        assert forall|a: int| 0 <= a < rest.len() implies (#[trigger] rest[a]).remaining_quantity
            > 0 by {
            assert(rest[a] == book[a + 1]);
        }
        assert(fills.skip(1) =~= later);
        if remaining < book[0].remaining_quantity {
            assert(later.len() == 0);
            assert(book.skip(0) =~= book);
        } else {
            law_book_after_match(taker, remaining - size, rest);
            law_fills_follow_book(taker, remaining - size, rest);
            if later.len() > 0 {
                assert(fills.last() == later.last());
                assert(rest[later.len() - 1] == book[fills.len() - 1]);
                assert(rest.skip(later.len() - 1) =~= book.skip(fills.len() - 1));
            }
            assert(rest.skip(later.len() as int) =~= book.skip(fills.len() as int));
        }
    } else {
        assert(book.skip(0) =~= book);
    }
}

/// Conservation over one placement: the trades that placing an order adds
/// to the ledger add up to what was taken off the order, which is no more
/// than the order was for, and each maker is recorded with what it had
/// left before less the one fill it received.
pub proof fn law_conservation(
    before: MatchingEngine,
    after: MatchingEngine,
    order: OrderView,
    placed: OrderView,
)
    requires
        before.wf(),
        after.placed(&before, order, placed),
        !before.book().index().contains_key(order.id),
        0 <= order.remaining_quantity <= order.quantity,
    ensures
        ({
            let fills = fills_of(newer(before.history(), after.history()));
            let makers = before.book().resting(order.side.opposite());
            &&& filled_total(fills) == order.remaining_quantity - placed.remaining_quantity
            &&& 0 <= filled_total(fills) <= order.quantity
            &&& 0 <= placed.remaining_quantity <= order.remaining_quantity
            &&& placed.well_formed()
            &&& fills.len() <= makers.len()
            &&& forall|i: int|
                0 <= i < fills.len() ==> (#[trigger] fills[i]).maker_order_id == makers[i].id
                    && after.book().index()[makers[i].id].remaining_quantity
                    == makers[i].remaining_quantity - fills[i].quantity
        }),
{
    let side = order.side.opposite();
    let taker = taker_of(order);
    let makers = before.book().resting(side);
    let index = before.book().index();
    let fills = match_fills(taker, order.remaining_quantity, makers);
    let bids = before.book().resting(Side::Bid);
    let asks = before.book().resting(Side::Ask);
    let all = bids + asks;
    law_resting_in_priority(before.book().levels(side), side);
    assert forall|a: int, b: int| 0 <= a < b < makers.len() implies (#[trigger] makers[a]).id != (
    #[trigger] makers[b]).id by {
        match side {
            Side::Bid => {
                assert(all[a] == makers[a]);
                assert(all[b] == makers[b]);
            },
            Side::Ask => {
                assert(all[a + bids.len()] == makers[a]);
                assert(all[b + bids.len()] == makers[b]);
            },
        }
    }
    assert forall|a: int| 0 <= a < makers.len() implies (#[trigger] makers[a]).id != order.id by {
        match side {
            Side::Bid => {
                assert(all[a] == makers[a]);
            },
            Side::Ask => {
                assert(all[a + bids.len()] == makers[a]);
            },
        }
    }
    law_taker_conservation(taker, order.remaining_quantity, makers);
    law_fills_follow_book(taker, order.remaining_quantity, makers);
    law_maker_conservation(taker, order.remaining_quantity, makers, index);
    assert forall|i: int| 0 <= i < fills.len() implies (#[trigger] fills[i]).maker_order_id
        == makers[i].id && after.book().index()[makers[i].id].remaining_quantity
        == makers[i].remaining_quantity - fills[i].quantity by {
        let maker = makers[i];
        assert(maker.id != order.id);
        assert(match_index(taker, order.remaining_quantity, makers, index)[maker.id]
            == maker.filled_by(fills[i].quantity));
    }
}

/// What `taker` can trade with in `book`: the sum of what remains of the
/// orders at prices that it crosses.
pub open spec fn liquidity(taker: Taker, book: Seq<OrderView>) -> int
    decreases book.len(),
{
    if book.len() == 0 {
        0
    } else if crosses(taker, book[0].price) {
        book[0].remaining_quantity + liquidity(taker, book.skip(1))
    } else {
        liquidity(taker, book.skip(1))
    }
}

/// The total of a queue is what remains of its first order and the total
/// of the rest.
pub proof fn law_total_from_the_front(orders: Seq<OrderView>)
    requires
        orders.len() > 0,
    ensures
        total_remaining(orders) == orders[0].remaining_quantity + total_remaining(orders.skip(1)),
    decreases orders.len(),
{
    if orders.len() == 1 {
        assert(orders.drop_last() =~= Seq::<OrderView>::empty());
        assert(orders.skip(1) =~= Seq::<OrderView>::empty());
        assert(total_remaining(orders.drop_last()) == 0);
    } else {
        let front = orders.drop_last();
        law_total_from_the_front(front);
        assert(front.skip(1) =~= orders.skip(1).drop_last());
        assert(orders.skip(1).last() == orders.last());
        assert(front[0] == orders[0]);
    }
}

/// On a side in price priority, an incoming order from the other side that
/// does not cross the price at the front crosses none behind it.
pub proof fn law_no_cross_behind(taker: Taker, book: Seq<OrderView>, side: Side)
    requires
        in_priority(book, side),
        taker.side == side.opposite(),
        book.len() > 0,
        !crosses(taker, book[0].price),
    ensures
        liquidity(taker, book) == 0,
        forall|a: int| 0 <= a < book.len() ==> !crosses(taker, (#[trigger] book[a]).price),
    decreases book.len(),
{
    assert forall|a: int| 0 <= a < book.len() implies !crosses(
        taker,
        (#[trigger] book[a]).price,
    ) by {
        if a > 0 {
            assert(!better(side, book[a].price, book[0].price));
        }
    }
    if book.len() > 1 {
        let rest = book.skip(1);
        assert forall|a: int, b: int| 0 <= a < b < rest.len() implies !better(
            side,
            (#[trigger] rest[b]).price,
            (#[trigger] rest[a]).price,
        ) by {
            assert(rest[a] == book[a + 1]);
            assert(rest[b] == book[b + 1]);
        }
        assert(rest[0] == book[1]);
        law_no_cross_behind(taker, rest, side);
    } else {
        assert(liquidity(taker, book.skip(1)) == 0);
    }
}

/// A match takes all that crosses or all that the order has left,
/// whichever is less: what is left of the order is what it had less the
/// liquidity that it crosses, or nothing; the opposite side loses exactly
/// what the order gained; and matching ends only with the order filled, the
/// side empty, or its front price not crossed. `side` is the side that
/// `book` is the priority order of, opposite to the incoming order's.
pub proof fn law_match_takes_what_crosses(
    taker: Taker,
    remaining: int,
    book: Seq<OrderView>,
    side: Side,
)
    requires
        all_open(book),
        in_priority(book, side),
        taker.side == side.opposite(),
        remaining >= 0,
    ensures
        liquidity(taker, book) >= 0,
        match_remaining(taker, remaining, book) == if remaining > liquidity(taker, book) {
            remaining - liquidity(taker, book)
        } else {
            0
        },
        total_remaining(match_book(taker, remaining, book)) == total_remaining(book) - (remaining
            - match_remaining(taker, remaining, book)),
        !trades_next(
            taker,
            match_remaining(taker, remaining, book),
            match_book(taker, remaining, book),
        ),
    decreases book.len(),
{
    if book.len() == 0 {
    } else {
        let rest = book.skip(1);
        assert forall|a: int| 0 <= a < rest.len() implies (#[trigger] rest[a]).remaining_quantity
            > 0 by {
            assert(rest[a] == book[a + 1]);
        }
        assert forall|a: int, b: int| 0 <= a < b < rest.len() implies !better(
            side,
            (#[trigger] rest[b]).price,
            (#[trigger] rest[a]).price,
        ) by {
            assert(rest[a] == book[a + 1]);
            assert(rest[b] == book[b + 1]);
        }
        law_total_from_the_front(book);
        if !crosses(taker, book[0].price) {
            law_no_cross_behind(taker, book, side);
        } else if remaining == 0 {
            law_match_takes_what_crosses(taker, 0, rest, side);
        } else if remaining < book[0].remaining_quantity {
            let after = book.update(0, book[0].filled_by(remaining));
            law_match_takes_what_crosses(taker, 0, rest, side);
            assert(match_remaining(taker, 0, rest) == 0);
            law_total_from_the_front(after);
            assert(after.skip(1) =~= rest);
            assert(!trades_next(taker, 0, after));
        } else {
            law_match_takes_what_crosses(taker, remaining - book[0].remaining_quantity, rest, side);
        }
    }
}

/// Over one placement, matching takes all that crosses or all that the
/// order has left, whichever is less. What is left of the order is what it
/// had less the liquidity that it crosses, or nothing. The opposite side
/// loses exactly what the order gained. And afterwards the order is filled,
/// or the opposite side is empty, or its best price is one that the order
/// does not cross.
pub proof fn law_placement_takes_what_crosses(
    before: MatchingEngine,
    after: MatchingEngine,
    order: OrderView,
    placed: OrderView,
)
    requires
        before.wf(),
        after.wf(),
        after.placed(&before, order, placed),
        order.remaining_quantity >= 0,
    ensures
        ({
            let side = order.side.opposite();
            let crossed = liquidity(taker_of(order), before.book().resting(side));
            &&& placed.remaining_quantity == if order.remaining_quantity > crossed {
                order.remaining_quantity - crossed
            } else {
                0
            }
            &&& total_remaining(after.book().resting(side)) == total_remaining(
                before.book().resting(side),
            ) - (order.remaining_quantity - placed.remaining_quantity)
            &&& placed.remaining_quantity == 0 || after.book().levels(side).len() == 0 || !crosses(
                taker_of(order),
                after.book().levels(side)[0].price,
            )
        }),
{
    let side = order.side.opposite();
    let taker = taker_of(order);
    let book = before.book().resting(side);
    law_resting_in_priority(before.book().levels(side), side);
    law_match_takes_what_crosses(taker, order.remaining_quantity, book, side);
    if after.book().levels(side).len() > 0 {
        lemma_resting_front(after.book().levels(side), side);
    }
}

/// A market order's price plays no part: two incoming market orders that
/// differ in price alone make the same fills and leave the same remainder,
/// the same book and the same records behind.
pub proof fn law_market_price_is_ignored(
    taker: Taker,
    price: int,
    remaining: int,
    book: Seq<OrderView>,
    index: Map<u64, OrderView>,
)
    requires
        taker.order_type == OrderType::Market,
    ensures
        ({
            let other = Taker { price, ..taker };
            &&& match_fills(other, remaining, book) == match_fills(taker, remaining, book)
            &&& match_remaining(other, remaining, book) == match_remaining(taker, remaining, book)
            &&& match_book(other, remaining, book) == match_book(taker, remaining, book)
            &&& match_index(other, remaining, book, index) == match_index(
                taker,
                remaining,
                book,
                index,
            )
        }),
    decreases book.len(),
{
    let other = Taker { price, ..taker };
    if trades_next(taker, remaining, book) {
        let size = crate::model::fill_size(remaining, book[0]);
        law_market_price_is_ignored(
            taker,
            price,
            remaining - size,
            book.skip(1),
            index.insert(book[0].id, book[0].filled_by(size)),
        );
        if remaining >= book[0].remaining_quantity {
            assert(size == book[0].remaining_quantity);
        }
    }
}

/// Status and remaining quantity go together: of an order for a positive
/// quantity with between nothing and all of it left, the status is filled
/// exactly when nothing is left, pending exactly when all of it is left,
/// and partially filled in between.
pub proof fn law_status(remaining: int, quantity: int)
    requires
        quantity > 0,
        0 <= remaining <= quantity,
    ensures
        status_for(remaining, quantity) == OrderStatus::Filled <==> remaining == 0,
        status_for(remaining, quantity) == OrderStatus::Pending <==> remaining == quantity,
        status_for(remaining, quantity) == OrderStatus::PartiallyFilled <==> 0 < remaining
            < quantity,
{
}

/// Market orders never rest: after a market order with an unknown id has
/// been placed, no order with its id rests on either side of the book, the
/// order's own side is as it was, and the order as matching left it is on
/// record under its id.
pub proof fn law_market_orders_never_rest(
    before: MatchingEngine,
    after: MatchingEngine,
    order: OrderView,
    placed: OrderView,
)
    requires
        after.wf(),
        order.order_type == OrderType::Market,
        after.placed(&before, order, placed),
    ensures
        after.book().levels(order.side) == before.book().levels(order.side),
        after.book().index().contains_key(order.id),
        after.book().index()[order.id] == placed,
        placed.remaining_quantity == match_remaining(
            taker_of(order),
            order.remaining_quantity,
            before.book().resting(order.side.opposite()),
        ),
        forall|a: int|
            0 <= a < after.book().resting(Side::Bid).len() ==> (#[trigger] after.book().resting(
                Side::Bid,
            )[a]).id != order.id,
        forall|a: int|
            0 <= a < after.book().resting(Side::Ask).len() ==> (#[trigger] after.book().resting(
                Side::Ask,
            )[a]).id != order.id,
{
    let bids = after.book().resting(Side::Bid);
    let asks = after.book().resting(Side::Ask);
    let all = bids + asks;
    let index = after.book().index();
    assert(index_wf(all, index));
    lemma_resting_fit(after.book().levels(Side::Bid), Side::Bid);
    lemma_resting_fit(after.book().levels(Side::Ask), Side::Ask);
    assert forall|a: int| 0 <= a < bids.len() implies (#[trigger] bids[a]).id != order.id by {
        assert(all[a] == bids[a]);
        assert(index[all[a].id] == all[a]);
    }
    assert forall|a: int| 0 <= a < asks.len() implies (#[trigger] asks[a]).id != order.id by {
        assert(all[a + bids.len()] == asks[a]);
        assert(index[all[a + bids.len()].id] == all[a + bids.len()]);
    }
}

} // verus!
