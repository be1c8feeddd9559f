//! The mathematical model of the book: price levels, the priority order of
//! resting orders, and what a match does to them.
//!
//! One side of the book is a sequence of price levels, best price first.
//! Read level by level it is a single sequence of resting orders in
//! price-time priority: the order at the front is the next one to trade.

use crate::decimal::MAX_UNITS;
use crate::trade_history::Fill;
use crate::types::{OrderType, OrderView, Side};
use vstd::prelude::*;

verus! {

/// All resting orders at one price, oldest first.
pub struct PriceLevel {
    pub price: int,
    pub orders: Seq<OrderView>,
}

/// Whether a resting order priced `a` goes strictly ahead of one priced `b`
/// on `side`: the higher bid, the lower ask.
pub open spec fn better(side: Side, a: int, b: int) -> bool {
    match side {
        Side::Bid => a > b,
        Side::Ask => a < b,
    }
}

/// The resting orders of a side in priority order: the levels' queues one
/// after the other.
pub open spec fn resting_of(levels: Seq<PriceLevel>) -> Seq<OrderView>
    decreases levels.len(),
{
    if levels.len() == 0 {
        Seq::empty()
    } else {
        levels[0].orders + resting_of(levels.skip(1))
    }
}

/// Whether `order` belongs in the queue of the level priced `price` on
/// `side`.
pub open spec fn fits_level(order: OrderView, price: int, side: Side) -> bool {
    &&& order.price == price
    &&& order.side == side
    &&& order.can_rest()
}

/// The shape of one side of the book: no level is empty, each level's price
/// is strictly better than that of every level behind it, and each queue
/// holds only orders of that side at that price that may rest.
pub open spec fn side_wf(levels: Seq<PriceLevel>, side: Side) -> bool {
    &&& forall|i: int| 0 <= i < levels.len() ==> (#[trigger] levels[i]).orders.len() > 0
    &&& forall|i: int, j: int|
        0 <= i < j < levels.len() ==> better(
            side,
            (#[trigger] levels[i]).price,
            (#[trigger] levels[j]).price,
        )
    &&& forall|i: int, k: int|
        0 <= i < levels.len() && 0 <= k < levels[i].orders.len() ==> fits_level(
            #[trigger] levels[i].orders[k],
            levels[i].price,
            side,
        )
}

/// How the id index goes with the resting orders `all` of both sides: no id
/// rests twice, every resting order is indexed exactly as it rests, every
/// record is filed under its own id, and a record that may rest does rest.
pub open spec fn index_wf(all: Seq<OrderView>, index: Map<u64, OrderView>) -> bool {
    &&& forall|a: int, b: int|
        0 <= a < b < all.len() ==> (#[trigger] all[a]).id != (#[trigger] all[b]).id
    &&& forall|a: int|
        0 <= a < all.len() ==> index.contains_key((#[trigger] all[a]).id) && index[all[a].id]
            == all[a]
    &&& forall|id: u64| index.contains_key(id) ==> (#[trigger] index[id]).id == id
    &&& forall|id: u64|
        index.contains_key(id) && (#[trigger] index[id]).can_rest() ==> all.contains(index[id])
}

/// Where a new order priced `price` goes among the resting orders `book` of
/// `side`: behind every order at a better or equal price, ahead of the first
/// one at a worse price.
pub open spec fn rank(book: Seq<OrderView>, side: Side, price: int) -> int
    decreases book.len(),
{
    if book.len() == 0 || better(side, price, book[0].price) {
        0
    } else {
        1 + rank(book.skip(1), side, price)
    }
}

/// The place of the first order with id `id` in `book`; the length of `book`
/// where there is none.
pub open spec fn position_of(book: Seq<OrderView>, id: u64) -> int
    decreases book.len(),
{
    if book.len() == 0 || book[0].id == id {
        0
    } else {
        1 + position_of(book.skip(1), id)
    }
}

/// The queue of the level priced `price`; empty where there is no such
/// level.
pub open spec fn queue_at(levels: Seq<PriceLevel>, price: int) -> Seq<OrderView>
    decreases levels.len(),
{
    if levels.len() == 0 {
        Seq::empty()
    } else if levels[0].price == price {
        levels[0].orders
    } else {
        queue_at(levels.skip(1), price)
    }
}

/// What matching reads of an incoming order: who it is, which side it is
/// on, and at what prices it trades.
pub struct Taker {
    pub id: u64,
    pub side: Side,
    pub order_type: OrderType,
    pub price: int,
}

/// The incoming order `order` as matching sees it.
pub open spec fn taker_of(order: OrderView) -> Taker {
    Taker { id: order.id, side: order.side, order_type: order.order_type, price: order.price }
}

/// Whether `taker` trades at the resting price `price`: a market order
/// always does, a limit order where the price is no worse than its limit.
pub open spec fn crosses(taker: Taker, price: int) -> bool {
    taker.order_type == OrderType::Market || match taker.side {
        Side::Ask => taker.price <= price,
        Side::Bid => taker.price >= price,
    }
}

/// Whether `taker`, with `remaining` still to fill, trades with the front of
/// `book`.
pub open spec fn trades_next(taker: Taker, remaining: int, book: Seq<OrderView>) -> bool {
    remaining > 0 && book.len() > 0 && crosses(taker, book[0].price)
}

/// The size of the next fill: all that is left of the smaller side.
pub open spec fn fill_size(remaining: int, maker: OrderView) -> int {
    if remaining > maker.remaining_quantity {
        maker.remaining_quantity
    } else {
        remaining
    }
}

/// The fill of `remaining` of `taker` against `maker`, at the maker's price.
pub open spec fn fill_against(taker: Taker, remaining: int, maker: OrderView) -> Fill {
    Fill {
        maker_order_id: maker.id,
        taker_order_id: taker.id,
        price: maker.price,
        quantity: fill_size(remaining, maker),
        side: taker.side,
    }
}

/// The fills, in order, of `taker` with `remaining` to fill against the
/// opposite side `book`: it trades with the front order until nothing remains,
/// the book is empty, or the front price no longer crosses.
pub open spec fn match_fills(taker: Taker, remaining: int, book: Seq<OrderView>) -> Seq<Fill>
    decreases book.len(),
{
    if trades_next(taker, remaining, book) {
        seq![fill_against(taker, remaining, book[0])] + match_fills(
            taker,
            remaining - fill_size(remaining, book[0]),
            book.skip(1),
        )
    } else {
        Seq::empty()
    }
}

/// What is left of `remaining` after the match.
pub open spec fn match_remaining(taker: Taker, remaining: int, book: Seq<OrderView>) -> int
    decreases book.len(),
{
    if trades_next(taker, remaining, book) {
        match_remaining(taker, remaining - fill_size(remaining, book[0]), book.skip(1))
    } else {
        remaining
    }
}

/// The opposite side after the match: fully filled makers are gone, a
/// partially filled maker stays at the front with less remaining.
pub open spec fn match_book(taker: Taker, remaining: int, book: Seq<OrderView>) -> Seq<
    OrderView,
>
    decreases book.len(),
{
    if !trades_next(taker, remaining, book) {
        book
    } else if remaining < book[0].remaining_quantity {
        book.update(0, book[0].filled_by(remaining))
    } else {
        match_book(taker, remaining - book[0].remaining_quantity, book.skip(1))
    }
}

/// The id index after the match: every maker that traded is recorded as the
/// fill left it.
pub open spec fn match_index(
    taker: Taker,
    remaining: int,
    book: Seq<OrderView>,
    index: Map<u64, OrderView>,
) -> Map<u64, OrderView>
    decreases book.len(),
{
    if trades_next(taker, remaining, book) {
        let size = fill_size(remaining, book[0]);
        match_index(
            taker,
            remaining - size,
            book.skip(1),
            index.insert(book[0].id, book[0].filled_by(size)),
        )
    } else {
        index
    }
}

/// `taker` as a limit order at `price`: the order that trades with one price
/// level and no further.
pub open spec fn limited_to(taker: Taker, price: int) -> Taker {
    Taker { price, order_type: OrderType::Limit, ..taker }
}

/// The sum of what remains of the orders in `orders`.
pub open spec fn total_remaining(orders: Seq<OrderView>) -> int
    decreases orders.len(),
{
    if orders.len() == 0 {
        0
    } else {
        total_remaining(orders.drop_last()) + orders.last().remaining_quantity
    }
}

/// What a snapshot reports of one side: for each of the best `depth`
/// levels, best first, its price and the sum of what remains of its orders.
pub open spec fn depth_view(levels: Seq<PriceLevel>, depth: nat) -> Seq<(int, int)> {
    Seq::new(
        if depth < levels.len() {
            depth
        } else {
            levels.len()
        },
        |i: int| (levels[i].price, total_remaining(levels[i].orders)),
    )
}

/// Whether a snapshot of one side to a depth of `depth` levels can be
/// written down: the total of each of those levels is an amount that can be
/// held.
pub open spec fn totals_fit(levels: Seq<PriceLevel>, depth: nat) -> bool {
    forall|i: int|
        0 <= i < levels.len() && i < depth ==> total_remaining((#[trigger] levels[i]).orders)
            <= MAX_UNITS
}

} // verus!
