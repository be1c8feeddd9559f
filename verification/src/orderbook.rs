//! The limit order book: two sides of price levels and an index by order id.

use crate::decimal::{Decimal, MAX_UNITS};
use crate::lemmas::{
    lemma_front_update, lemma_index_forget, lemma_index_insert, lemma_index_leave,
    lemma_index_record, lemma_index_update, lemma_leave, lemma_position_is, lemma_rest_existing,
    lemma_rest_new, lemma_resting_fit, lemma_resting_front, lemma_resting_member,
    lemma_total_grows, levels_without,
};
use crate::model::{
    better, depth_view, fill_against, fill_size, fits_level, index_wf, position_of, queue_at, rank,
    resting_of, side_wf, taker_of, total_remaining, totals_fit, PriceLevel,
};
use crate::trade_history::Trade;
use crate::types::{Order, OrderStatus, OrderView, Side};
use std::collections::HashMap;
use std::collections::VecDeque;
use vstd::pervasive::unreached;
use vstd::prelude::*;

verus! {

/// The resting orders at one price, oldest at the front.
#[derive(Debug)]
struct Level {
    price: Decimal,
    orders: VecDeque<Order>,
}

impl Level {
    spec fn model(&self) -> PriceLevel {
        PriceLevel { price: self.price@, orders: self.orders@.map_values(|o: Order| o@) }
    }
}

spec fn levels_model(levels: Seq<Level>) -> Seq<PriceLevel> {
    levels.map_values(|level: Level| level.model())
}

/// Whether a resting order priced `a` goes strictly ahead of one priced `b`
/// on `side`.
fn price_better(side: Side, a: &Decimal, b: &Decimal) -> (r: bool)
    ensures
        r == better(side, a@, b@),
{
    match side {
        Side::Bid => a.gt(b),
        Side::Ask => a.lt(b),
    }
}

/// The place of `price` among `levels`: the first level that is not
/// strictly better, and whether that level is at `price` itself. The levels
/// are in order of price, so the place is found by halving.
fn find_level(levels: &Vec<Level>, side: Side, price: &Decimal) -> (r: (usize, bool))
    requires
        side_wf(levels_model(levels@), side),
    ensures
        r.0 <= levels.len(),
        forall|j: int| 0 <= j < r.0 ==> better(side, #[trigger] levels[j].price@, price@),
        r.1 <==> r.0 < levels.len() && levels[r.0 as int].price@ == price@,
        forall|j: int|
            r.0 <= j < levels.len() && !(j == r.0 && r.1) ==> better(
                side,
                price@,
                #[trigger] levels[j].price@,
            ),
{
    let ghost model = levels_model(levels@);
    proof {
        assert forall|j: int| 0 <= j < levels.len() implies (#[trigger] model[j]).price
            == levels[j].price@ by {}
    }
    let mut low: usize = 0;
    let mut high: usize = levels.len();
    while low < high
        invariant
            low <= high <= levels.len(),
            model == levels_model(levels@),
            side_wf(model, side),
            forall|j: int| 0 <= j < levels.len() ==> (#[trigger] model[j]).price == levels[j].price@,
            forall|j: int| 0 <= j < low ==> better(side, #[trigger] levels[j].price@, price@),
            forall|j: int|
                high <= j < levels.len() ==> !better(side, #[trigger] levels[j].price@, price@),
        decreases high - low,
    {
        let middle: usize = low + (high - low) / 2;
        if price_better(side, &levels[middle].price, price) {
            proof {
                assert forall|j: int| 0 <= j < middle + 1 implies better(
                    side,
                    #[trigger] levels[j].price@,
                    price@,
                ) by {
                    if j < middle {
                        assert(better(side, model[j].price, model[middle as int].price));
                    }
                }
            }
            low = middle + 1;
        } else {
            proof {
                assert forall|j: int| middle <= j < levels.len() implies !better(
                    side,
                    #[trigger] levels[j].price@,
                    price@,
                ) by {
                    if j > middle {
                        assert(better(side, model[middle as int].price, model[j].price));
                    }
                }
            }
            high = middle;
        }
    }
    let found = low < levels.len() && levels[low].price.same_value(price);
    proof {
        assert forall|j: int| low <= j < levels.len() && !(j == low && found) implies better(
            side,
            price@,
            #[trigger] levels[j].price@,
        ) by {
            if j > low {
                assert(better(side, model[low as int].price, model[j].price));
            }
        }
    }
    (low, found)
}

/// Puts `order` to rest among `levels`: at the back of the queue at its
/// price, or in a new level where none is at that price.
fn rest_in(levels: &mut Vec<Level>, order: Order)
    requires
        side_wf(levels_model(old(levels)@), order.side),
        order@.can_rest(),
    ensures
        side_wf(levels_model(final(levels)@), order.side),
        0 <= rank(resting_of(levels_model(old(levels)@)), order.side, order@.price)
            <= resting_of(levels_model(old(levels)@)).len(),
        resting_of(levels_model(final(levels)@)) == resting_of(levels_model(old(levels)@)).insert(
            rank(resting_of(levels_model(old(levels)@)), order.side, order@.price),
            order@,
        ),
{
    let (at, found) = find_level(levels, order.side, &order.price);
    let ghost before = levels_model(levels@);
    proof {
        assert forall|j: int| 0 <= j < levels.len() implies (#[trigger] before[j]).price
            == levels[j].price@ by {}
    }
    if found {
        levels[at].orders.push_back(order);
        proof {
            let level = PriceLevel {
                price: before[at as int].price,
                orders: before[at as int].orders.push(order@),
            };
            assert(levels[at as int].model().orders =~= level.orders);
            assert(levels_model(levels@) =~= before.update(at as int, level));
            lemma_rest_existing(before, order.side, at as int, order@);
        }
    } else {
        let mut queue: VecDeque<Order> = VecDeque::new();
        queue.push_back(order);
        levels.insert(at, Level { price: order.price, orders: queue });
        proof {
            let level = PriceLevel { price: order@.price, orders: seq![order@] };
            assert(levels[at as int].model().orders =~= level.orders);
            assert(levels_model(levels@) =~= before.insert(at as int, level));
            lemma_rest_new(before, order.side, at as int, order@);
        }
    }
}

/// Takes the resting order with id `id`, priced `price`, out of `levels`,
/// and drops its level where that leaves it empty.
fn take_from(levels: &mut Vec<Level>, side: Side, price: &Decimal, id: u64)
    requires
        side_wf(levels_model(old(levels)@), side),
        forall|a: int, b: int|
            0 <= a < b < resting_of(levels_model(old(levels)@)).len() ==> (#[trigger] resting_of(
                levels_model(old(levels)@),
            )[a]).id != (#[trigger] resting_of(levels_model(old(levels)@))[b]).id,
        exists|a: int|
            0 <= a < resting_of(levels_model(old(levels)@)).len() && (#[trigger] resting_of(
                levels_model(old(levels)@),
            )[a]).id == id && resting_of(levels_model(old(levels)@))[a].price == price@,
    ensures
        side_wf(levels_model(final(levels)@), side),
        0 <= position_of(resting_of(levels_model(old(levels)@)), id) < resting_of(
            levels_model(old(levels)@),
        ).len(),
        resting_of(levels_model(old(levels)@))[position_of(
            resting_of(levels_model(old(levels)@)),
            id,
        )].id == id,
        resting_of(levels_model(final(levels)@)) == resting_of(levels_model(old(levels)@)).remove(
            position_of(resting_of(levels_model(old(levels)@)), id),
        ),
{
    let (at, found) = find_level(levels, side, price);
    let ghost before = levels_model(levels@);
    let ghost book = resting_of(before);
    let ghost target = choose|a: int| 0 <= a < book.len() && (#[trigger] book[a]).id == id
        && book[a].price == price@;
    let ghost spot = lemma_resting_member(before, side, target);
    proof {
        assert(fits_level(before[spot.0].orders[spot.1], before[spot.0].price, side));
        assert(before[spot.0].price == levels[spot.0].price@);
        assert(spot.0 == at && found);
        assert(before[at as int].orders[spot.1] == levels[at as int].orders@[spot.1]@);
    }
    let mut k: usize = 0;
    while levels[at].orders[k].id != id
        invariant
            at < levels.len(),
            levels_model(levels@) == before,
            0 <= k <= spot.1 < levels[at as int].orders.len(),
            levels[at as int].orders@[spot.1].id == id,
            forall|j: int| 0 <= j < k ==> (#[trigger] levels[at as int].orders@[j]).id != id,
        decreases spot.1 - k,
    {
        k += 1;
    }
    let ghost queue = levels[at as int].orders@;
    levels[at].orders.remove(k);
    if levels[at].orders.len() == 0 {
        levels.remove(at);
    }
    proof {
        lemma_leave(before, side, at as int, k as int);
        let place = resting_of(before.take(at as int)).len() + k;
        assert(before[at as int].orders[k as int] == queue[k as int]@);
        assert(book[place].id == id);
        lemma_position_is(book, id, place);
        if queue.len() > 1 {
            assert(levels[at as int].model().orders =~= before[at as int].orders.remove(k as int));
        }
        assert(levels_model(levels@) =~= levels_without(before, at as int, k as int));
    }
}

/// Trades `taker` against the oldest order of the best level of `levels`,
/// the side opposite to the taker's, and hands back the trade and the maker
/// as the trade left it. A maker that is filled leaves its queue, and the
/// level goes with the last of its orders.
fn fill_front_in(levels: &mut Vec<Level>, side: Side, taker: &mut Order) -> (r: (Trade, Order))
    requires
        side_wf(levels_model(old(levels)@), side),
        old(levels).len() > 0,
        old(taker).remaining_quantity@ > 0,
    ensures
        side_wf(levels_model(final(levels)@), side),
        ({
            let book = resting_of(levels_model(old(levels)@));
            let size = fill_size(old(taker)@.remaining_quantity, book[0]);
            &&& book.len() > 0
            &&& r.0.fill() == fill_against(
                taker_of(old(taker)@),
                old(taker)@.remaining_quantity,
                book[0],
            )
            &&& r.1@ == book[0].filled_by(size)
            &&& final(taker)@ == (OrderView {
                remaining_quantity: old(taker)@.remaining_quantity - size,
                ..old(taker)@
            })
            &&& resting_of(levels_model(final(levels)@)) == if size
                == book[0].remaining_quantity {
                book.remove(0)
            } else {
                book.update(0, book[0].filled_by(size))
            }
        }),
{
    let ghost before = levels_model(levels@);
    let ghost book = resting_of(before);
    let ghost queue = levels[0].orders@;
    proof {
        lemma_resting_front(before, side);
        assert(before[0].orders.len() > 0);
        assert(before[0].orders[0] == queue[0]@);
        assert(fits_level(before[0].orders[0], before[0].price, side));
    }
    let mut maker = match levels[0].orders.pop_front() {
        Some(front) => front,
        None => unreached(),
    };
    let fill = taker.remaining_quantity.min(maker.remaining_quantity);
    let trade = Trade::new(maker.id, taker.id, maker.price, fill, taker.side);
    taker.remaining_quantity = taker.remaining_quantity.minus(fill);
    maker.remaining_quantity = maker.remaining_quantity.minus(fill);
    if maker.remaining_quantity.is_zero() {
        maker.status = OrderStatus::Filled;
        if levels[0].orders.len() == 0 {
            levels.remove(0);
        }
        proof {
            lemma_leave(before, side, 0, 0);
            assert(before.take(0) =~= Seq::<PriceLevel>::empty());
            if queue.len() > 1 {
                assert(levels[0].model().orders =~= before[0].orders.remove(0));
            }
            assert(levels_model(levels@) =~= levels_without(before, 0, 0));
        }
    } else {
        maker.status = OrderStatus::PartiallyFilled;
        levels[0].orders.push_front(maker);
        proof {
            lemma_front_update(before, side, maker@);
            assert(levels[0].model().orders =~= before[0].orders.update(0, maker@));
            assert(levels_model(levels@) =~= before.update(
                0,
                PriceLevel { price: before[0].price, orders: before[0].orders.update(0, maker@) },
            ));
        }
    }
    (trade, maker)
}

/// The sum of what remains of the orders in `orders`, or `None` where the
/// sum is more than the largest amount that can be held.
fn queue_total(orders: &VecDeque<Order>) -> (total: Option<Decimal>)
    requires
        forall|k: int| 0 <= k < orders@.len() ==> (#[trigger] orders@[k]).remaining_quantity@ >= 0,
    ensures
        total is Some <==> total_remaining(orders@.map_values(|o: Order| o@)) <= MAX_UNITS,
        total matches Some(t) ==> t@ == total_remaining(orders@.map_values(|o: Order| o@)),
{
    let ghost views = orders@.map_values(|o: Order| o@);
    let mut total = Decimal::zero();
    let mut k: usize = 0;
    proof {
        assert(views.take(0) =~= Seq::<OrderView>::empty());
    }
    while k < orders.len()
        invariant
            k <= orders@.len(),
            views == orders@.map_values(|o: Order| o@),
            forall|j: int| 0 <= j < views.len() ==> (#[trigger] views[j]).remaining_quantity >= 0,
            total@ == total_remaining(views.take(k as int)),
            0 <= total@ <= MAX_UNITS,
        decreases orders@.len() - k,
    {
        proof {
            let next = views.take(k + 1);
            assert(next.drop_last() =~= views.take(k as int));
            assert(next.last() == orders@[k as int]@);
            assert(views[k as int].remaining_quantity >= 0);
        }
        match total.checked_add(orders[k].remaining_quantity) {
            Some(sum) => {
                total = sum;
            },
            None => {
                proof {
                    lemma_total_grows(views, k + 1);
                }
                return None;
            },
        }
        k += 1;
    }
    proof {
        assert(views.take(k as int) =~= views);
    }
    Some(total)
}

/// The best `depth` levels of one side, each with its price and the total
/// that remains at it, or `None` where one of those totals is more than the
/// largest amount that can be held.
fn snapshot_side(levels: &Vec<Level>, side: Side, depth: usize) -> (rows: Option<
    Vec<(Decimal, Decimal)>,
>)
    requires
        side_wf(levels_model(levels@), side),
    ensures
        rows is Some <==> totals_fit(levels_model(levels@), depth as nat),
        rows matches Some(r) ==> r@.map_values(|row: (Decimal, Decimal)| (row.0@, row.1@))
            == depth_view(levels_model(levels@), depth as nat),
{
    let ghost model = levels_model(levels@);
    let count: usize = if depth < levels.len() {
        depth
    } else {
        levels.len()
    };
    let mut rows: Vec<(Decimal, Decimal)> = Vec::new();
    let mut i: usize = 0;
    while i < count
        invariant
            i <= count <= levels.len(),
            count == if depth < levels.len() {
                depth
            } else {
                levels.len()
            },
            model == levels_model(levels@),
            side_wf(model, side),
            rows@.len() == i,
            forall|j: int|
                0 <= j < i ==> (#[trigger] rows@[j]).0@ == model[j].price && rows@[j].1@
                    == total_remaining(model[j].orders),
            forall|j: int| 0 <= j < i ==> total_remaining((#[trigger] model[j]).orders) <= MAX_UNITS,
        decreases count - i,
    {
        proof {
            assert forall|k: int| 0 <= k < levels[i as int].orders@.len() implies (
            #[trigger] levels[i as int].orders@[k]).remaining_quantity@ >= 0 by {
                assert(fits_level(model[i as int].orders[k], model[i as int].price, side));
            }
        }
        match queue_total(&levels[i].orders) {
            Some(total) => {
                rows.push((levels[i].price, total));
            },
            None => {
                proof {
                    assert(total_remaining(model[i as int].orders) > MAX_UNITS);
                }
                return None;
            },
        }
        i += 1;
    }
    proof {
        assert(rows@.map_values(|row: (Decimal, Decimal)| (row.0@, row.1@)) =~= depth_view(
            model,
            depth as nat,
        ));
    }
    Some(rows)
}

/// Why the book cannot answer.
#[derive(Debug, Clone, Copy, PartialEq, Eq, Structural)]
pub enum BookError {
    /// The total of a price level is more than the largest amount that can
    /// be held.
    TotalTooLarge,
}

/// A limit order book.
#[derive(Debug)]
pub struct OrderBook {
    asks: Vec<Level>,
    bids: Vec<Level>,
    orders: HashMap<u64, Order>,
}

impl OrderBook {
    /// The price levels of `side`, best price first.
    pub closed spec fn levels(&self, side: Side) -> Seq<PriceLevel> {
        match side {
            Side::Bid => levels_model(self.bids@),
            Side::Ask => levels_model(self.asks@),
        }
    }

    /// The resting orders of `side` in price-time priority.
    pub open spec fn resting(&self, side: Side) -> Seq<OrderView> {
        resting_of(self.levels(side))
    }

    /// The record kept under each known order id: resting orders as they
    /// rest, and orders that left the book as they left it.
    pub closed spec fn index(&self) -> Map<u64, OrderView> {
        self.orders@.map_values(|o: Order| o@)
    }

    /// The book's invariant: both sides are well shaped and the index goes
    /// with what rests.
    pub open spec fn wf(&self) -> bool {
        &&& side_wf(self.levels(Side::Bid), Side::Bid)
        &&& side_wf(self.levels(Side::Ask), Side::Ask)
        &&& index_wf(self.resting(Side::Bid) + self.resting(Side::Ask), self.index())
    }

    /// An empty book.
    pub fn new() -> (book: OrderBook)
        ensures
            book.wf(),
            book.levels(Side::Bid) == Seq::<PriceLevel>::empty(),
            book.levels(Side::Ask) == Seq::<PriceLevel>::empty(),
            book.index() == Map::<u64, OrderView>::empty(),
    {
        let book = OrderBook { asks: Vec::new(), bids: Vec::new(), orders: HashMap::new() };
        proof {
            assert(book.levels(Side::Bid) =~= Seq::<PriceLevel>::empty());
            assert(book.levels(Side::Ask) =~= Seq::<PriceLevel>::empty());
            assert(book.index() =~= Map::<u64, OrderView>::empty());
            assert(book.resting(Side::Bid) + book.resting(Side::Ask) =~= Seq::<
                OrderView,
            >::empty());
        }
        book
    }

    /// Whether `other` holds the same levels and the same index.
    pub open spec fn same_as(&self, other: &OrderBook) -> bool {
        &&& self.levels(Side::Bid) == other.levels(Side::Bid)
        &&& self.levels(Side::Ask) == other.levels(Side::Ask)
        &&& self.index() == other.index()
    }

    /// Takes `order` into the book without matching it.
    ///
    /// An order whose id is already known is turned away: the book stays as
    /// it is and the record held under that id is returned. Otherwise the
    /// order is recorded under its id and, where it may rest, put at the
    /// back of the queue at its price.
    pub fn place_order(&mut self, order: Order) -> (placed: Order)
        requires
            old(self).wf(),
        ensures
            final(self).wf(),
            old(self).index().contains_key(order.id) ==> final(self).same_as(old(self))
                && placed@ == old(self).index()[order.id],
            !old(self).index().contains_key(order.id) ==> {
                &&& placed == order
                &&& final(self).index() == old(self).index().insert(order.id, order@)
                &&& final(self).levels(order.side.opposite()) == old(self).levels(
                    order.side.opposite(),
                )
                &&& order@.can_rest() ==> final(self).resting(order.side) == old(self).resting(
                    order.side,
                ).insert(rank(old(self).resting(order.side), order.side, order@.price), order@)
                &&& !order@.can_rest() ==> final(self).levels(order.side) == old(self).levels(
                    order.side,
                )
            },
    {
        match self.orders.get(&order.id) {
            Some(existing) => {
                return *existing;
            },
            None => {},
        }
        let ghost bids = self.resting(Side::Bid);
        let ghost asks = self.resting(Side::Ask);
        let ghost index = self.index();
        let ghost at = rank(self.resting(order.side), order.side, order@.price);
        if order.is_restable() {
            match order.side {
                Side::Ask => rest_in(&mut self.asks, order),
                Side::Bid => rest_in(&mut self.bids, order),
            }
            proof {
                match order.side {
                    Side::Ask => {
                        assert(bids + asks.insert(at, order@) =~= (bids + asks).insert(
                            bids.len() + at,
                            order@,
                        ));
                        lemma_index_insert(bids + asks, index, bids.len() + at, order@);
                    },
                    Side::Bid => {
                        assert(bids.insert(at, order@) + asks =~= (bids + asks).insert(at, order@));
                        lemma_index_insert(bids + asks, index, at, order@);
                    },
                }
            }
        } else {
            proof {
                lemma_index_record(bids + asks, index, order@);
            }
        }
        self.orders.insert(order.id, order);
        proof {
            assert(self.index() =~= index.insert(order.id, order@));
        }
        order
    }

    /// Forgets the order with id `order_id`: its record leaves the index and,
    /// where it rests, the order leaves its queue, and its level goes with
    /// the last of its orders. Returns the record, or `None` for an unknown
    /// id.
    pub fn remove_order(&mut self, order_id: u64) -> (removed: Option<Order>)
        requires
            old(self).wf(),
        ensures
            final(self).wf(),
            match removed {
                Some(o) => {
                    &&& old(self).index().contains_key(order_id)
                    &&& o@ == old(self).index()[order_id]
                    &&& final(self).index() == old(self).index().remove(order_id)
                    &&& final(self).levels(o.side.opposite()) == old(self).levels(
                        o.side.opposite(),
                    )
                    &&& o@.can_rest() ==> final(self).resting(o.side) == old(self).resting(
                        o.side,
                    ).remove(position_of(old(self).resting(o.side), order_id))
                    &&& !o@.can_rest() ==> final(self).levels(o.side) == old(self).levels(o.side)
                },
                None => !old(self).index().contains_key(order_id) && final(self).same_as(
                    old(self),
                ),
            },
    {
        let ghost bids = self.resting(Side::Bid);
        let ghost asks = self.resting(Side::Ask);
        let ghost index = self.index();
        let ghost all = bids + asks;
        let order = match self.orders.remove(&order_id) {
            Some(o) => o,
            None => {
                proof {
                    assert(self.index() =~= index);
                }
                return None;
            },
        };
        proof {
            assert(self.index() =~= index.remove(order_id));
            assert(order@ == index[order_id]);
        }
        if order.is_restable() {
            let ghost side_book = self.resting(order.side);
            proof {
                lemma_resting_fit(self.levels(Side::Bid), Side::Bid);
                lemma_resting_fit(self.levels(Side::Ask), Side::Ask);
                let c = choose|c: int| 0 <= c < all.len() && all[c] == index[order_id];
                match order.side {
                    Side::Bid => {
                        if c >= bids.len() {
                            assert(all[c] == asks[c - bids.len()]);
                        }
                        assert(all[c] == bids[c]);
                        assert forall|a: int, b: int| 0 <= a < b < bids.len() implies (
                        #[trigger] bids[a]).id != (#[trigger] bids[b]).id by {
                            assert(all[a] == bids[a]);
                            assert(all[b] == bids[b]);
                        }
                    },
                    Side::Ask => {
                        if c < bids.len() {
                            assert(all[c] == bids[c]);
                        }
                        assert(all[c] == asks[c - bids.len()]);
                        assert forall|a: int, b: int| 0 <= a < b < asks.len() implies (
                        #[trigger] asks[a]).id != (#[trigger] asks[b]).id by {
                            assert(all[a + bids.len()] == asks[a]);
                            assert(all[b + bids.len()] == asks[b]);
                        }
                    },
                }
            }
            match order.side {
                Side::Ask => take_from(&mut self.asks, Side::Ask, &order.price, order_id),
                Side::Bid => take_from(&mut self.bids, Side::Bid, &order.price, order_id),
            }
            proof {
                let place = position_of(side_book, order_id);
                match order.side {
                    Side::Bid => {
                        assert(bids.remove(place) + asks =~= all.remove(place));
                        assert(all[place] == bids[place]);
                        lemma_index_forget(all, index, place);
                    },
                    Side::Ask => {
                        assert(bids + asks.remove(place) =~= all.remove(bids.len() + place));
                        assert(all[bids.len() + place] == asks[place]);
                        lemma_index_forget(all, index, bids.len() + place);
                    },
                }
            }
        } else {
            proof {
                lemma_all_rest(self.levels(Side::Bid), self.levels(Side::Ask));
                lemma_index_unrecord(all, index, order_id);
            }
        }
        Some(order)
    }

    /// Trades `taker` against the order at the front of the opposite side:
    /// the oldest order at the best price. The trade is for all that is left
    /// of the smaller of the two, at the maker's price. The maker is
    /// recorded as the trade left it, and leaves the book where it is
    /// filled. The taker's status is left as it was.
    pub fn fill_front(&mut self, taker: &mut Order) -> (trade: Trade)
        requires
            old(self).wf(),
            old(self).levels(old(taker).side.opposite()).len() > 0,
            old(taker).remaining_quantity@ > 0,
        ensures
            final(self).wf(),
            ({
                let book = old(self).resting(old(taker).side.opposite());
                let size = fill_size(old(taker)@.remaining_quantity, book[0]);
                &&& book.len() > 0
                &&& trade.fill() == fill_against(
                    taker_of(old(taker)@),
                    old(taker)@.remaining_quantity,
                    book[0],
                )
                &&& final(taker)@ == (OrderView {
                    remaining_quantity: old(taker)@.remaining_quantity - size,
                    ..old(taker)@
                })
                &&& final(self).resting(old(taker).side.opposite()) == if size
                    == book[0].remaining_quantity {
                    book.remove(0)
                } else {
                    book.update(0, book[0].filled_by(size))
                }
                &&& final(self).levels(old(taker).side) == old(self).levels(old(taker).side)
                &&& final(self).index() == old(self).index().insert(
                    book[0].id,
                    book[0].filled_by(size),
                )
            }),
    {
        let ghost bids = self.resting(Side::Bid);
        let ghost asks = self.resting(Side::Ask);
        let ghost index = self.index();
        let ghost all = bids + asks;
        let (trade, maker) = match taker.side {
            Side::Bid => fill_front_in(&mut self.asks, Side::Ask, taker),
            Side::Ask => fill_front_in(&mut self.bids, Side::Bid, taker),
        };
        self.orders.insert(maker.id, maker);
        proof {
            assert(self.index() =~= index.insert(maker.id, maker@));
            match old(taker).side {
                Side::Bid => {
                    assert(all[bids.len() as int] == asks[0]);
                    if maker@.remaining_quantity == 0 {
                        assert(bids + asks.remove(0) =~= all.remove(bids.len() as int));
                        lemma_index_leave(all, index, bids.len() as int, maker@);
                    } else {
                        assert(bids + asks.update(0, maker@) =~= all.update(
                            bids.len() as int,
                            maker@,
                        ));
                        lemma_index_update(all, index, bids.len() as int, maker@);
                    }
                },
                Side::Ask => {
                    assert(all[0] == bids[0]);
                    if maker@.remaining_quantity == 0 {
                        assert(bids.remove(0) + asks =~= all.remove(0));
                        lemma_index_leave(all, index, 0, maker@);
                    } else {
                        assert(bids.update(0, maker@) + asks =~= all.update(0, maker@));
                        lemma_index_update(all, index, 0, maker@);
                    }
                },
            }
        }
        trade
    }

    /// Files `order` under its id without putting it to rest. It is for an
    /// order that is done with the book: filled, cancelled, or a market
    /// order.
    pub fn record_order(&mut self, order: Order)
        requires
            old(self).wf(),
            !order@.can_rest(),
            !old(self).index().contains_key(order.id) || !old(self).index()[order.id].can_rest(),
        ensures
            final(self).wf(),
            final(self).levels(Side::Bid) == old(self).levels(Side::Bid),
            final(self).levels(Side::Ask) == old(self).levels(Side::Ask),
            final(self).index() == old(self).index().insert(order.id, order@),
    {
        let ghost index = self.index();
        let ghost all = self.resting(Side::Bid) + self.resting(Side::Ask);
        proof {
            lemma_all_rest(self.levels(Side::Bid), self.levels(Side::Ask));
            assert forall|a: int| 0 <= a < all.len() implies (#[trigger] all[a]).id
                != order.id by {
                assert(all[a].can_rest());
            }
            lemma_index_record(all, index, order@);
        }
        self.orders.insert(order.id, order);
        proof {
            assert(self.index() =~= index.insert(order.id, order@));
        }
    }

    /// The book to a depth of `depth` levels: the bids and the asks, each
    /// best price first, each level with its price and the total quantity
    /// that remains at it. Where the total of one of those levels is more
    /// than the largest amount that can be held, no snapshot is given.
    pub fn get_order_book(&self, depth: usize) -> (rows: Result<
        (Vec<(Decimal, Decimal)>, Vec<(Decimal, Decimal)>),
        BookError,
    >)
        requires
            self.wf(),
        ensures
            rows is Ok <==> totals_fit(self.levels(Side::Bid), depth as nat) && totals_fit(
                self.levels(Side::Ask),
                depth as nat,
            ),
            rows matches Ok(r) ==> r.0@.map_values(|row: (Decimal, Decimal)| (row.0@, row.1@))
                == depth_view(self.levels(Side::Bid), depth as nat) && r.1@.map_values(
                |row: (Decimal, Decimal)| (row.0@, row.1@),
            ) == depth_view(self.levels(Side::Ask), depth as nat),
            rows matches Err(e) ==> e == BookError::TotalTooLarge,
    {
        let bids = match snapshot_side(&self.bids, Side::Bid, depth) {
            Some(rows) => rows,
            None => {
                return Err(BookError::TotalTooLarge);
            },
        };
        let asks = match snapshot_side(&self.asks, Side::Ask, depth) {
            Some(rows) => rows,
            None => {
                return Err(BookError::TotalTooLarge);
            },
        };
        Ok((bids, asks))
    }

    /// The best price that an order on `side` can trade against: the lowest
    /// ask for a bid, the highest bid for an ask.
    pub fn get_best_opposite_price(&self, side: Side) -> (price: Option<Decimal>)
        ensures
            match price {
                Some(p) => self.levels(side.opposite()).len() > 0 && p@ == self.levels(
                    side.opposite(),
                )[0].price,
                None => self.levels(side.opposite()).len() == 0,
            },
    {
        match side {
            Side::Bid => self.best_ask(),
            Side::Ask => self.best_bid(),
        }
    }

    /// The highest price bid, if any bid rests.
    pub fn best_bid(&self) -> (price: Option<Decimal>)
        ensures
            match price {
                Some(p) => self.levels(Side::Bid).len() > 0 && p@ == self.levels(
                    Side::Bid,
                )[0].price,
                None => self.levels(Side::Bid).len() == 0,
            },
    {
        if self.bids.len() == 0 {
            None
        } else {
            Some(self.bids[0].price)
        }
    }

    /// The lowest price asked, if any ask rests.
    pub fn best_ask(&self) -> (price: Option<Decimal>)
        ensures
            match price {
                Some(p) => self.levels(Side::Ask).len() > 0 && p@ == self.levels(
                    Side::Ask,
                )[0].price,
                None => self.levels(Side::Ask).len() == 0,
            },
    {
        if self.asks.len() == 0 {
            None
        } else {
            Some(self.asks[0].price)
        }
    }

    /// The record kept under `order_id`, if the id is known.
    pub fn get_order_status(&self, order_id: u64) -> (order: Option<&Order>)
        ensures
            match order {
                Some(o) => self.index().contains_key(order_id) && o@ == self.index()[order_id],
                None => !self.index().contains_key(order_id),
            },
    {
        self.orders.get(&order_id)
    }

    /// The orders resting on `side` at `price`, oldest first; none where no
    /// order rests at that price.
    pub fn orders_at_price(&self, price: Decimal, side: Side) -> (orders: VecDeque<Order>)
        requires
            self.wf(),
        ensures
            orders@.map_values(|o: Order| o@) == queue_at(self.levels(side), price@),
    {
        let levels = match side {
            Side::Ask => &self.asks,
            Side::Bid => &self.bids,
        };
        let (at, found) = find_level(levels, side, &price);
        proof {
            lemma_queue_at(levels_model(levels@), side, price@, at as int);
        }
        if found {
            levels[at].orders.clone()
        } else {
            VecDeque::new()
        }
    }
}

impl Default for OrderBook {
    /// An empty book.
    fn default() -> (book: OrderBook)
        ensures
            book.wf(),
            book.levels(Side::Bid) == Seq::<PriceLevel>::empty(),
            book.levels(Side::Ask) == Seq::<PriceLevel>::empty(),
            book.index() == Map::<u64, OrderView>::empty(),
    {
        OrderBook::new()
    }
}

/// Every order resting on either of two well-shaped sides may rest.
proof fn lemma_all_rest(bids: Seq<PriceLevel>, asks: Seq<PriceLevel>)
    requires
        side_wf(bids, Side::Bid),
        side_wf(asks, Side::Ask),
    ensures
        forall|a: int|
            0 <= a < (resting_of(bids) + resting_of(asks)).len() ==> (#[trigger] (resting_of(bids)
                + resting_of(asks))[a]).can_rest(),
{
    let all = resting_of(bids) + resting_of(asks);
    lemma_resting_fit(bids, Side::Bid);
    lemma_resting_fit(asks, Side::Ask);
    assert forall|a: int| 0 <= a < all.len() implies (#[trigger] all[a]).can_rest() by {
        if a < resting_of(bids).len() {
            assert(all[a] == resting_of(bids)[a]);
        } else {
            assert(all[a] == resting_of(asks)[a - resting_of(bids).len()]);
        }
    }
}

/// The index stays in step when a record that may not rest is forgotten.
proof fn lemma_index_unrecord(all: Seq<OrderView>, index: Map<u64, OrderView>, id: u64)
    requires
        index_wf(all, index),
        index.contains_key(id),
        !index[id].can_rest(),
        forall|a: int| 0 <= a < all.len() ==> (#[trigger] all[a]).can_rest(),
    ensures
        index_wf(all, index.remove(id)),
{
    let index2 = index.remove(id);
    assert forall|a: int| 0 <= a < all.len() implies index2.contains_key(
        (#[trigger] all[a]).id,
    ) && index2[all[a].id] == all[a] by {
        assert(index[all[a].id] == all[a]);
    }
    assert forall|other: u64|
        index2.contains_key(other) && (#[trigger] index2[other]).can_rest() implies all.contains(
        index2[other],
    ) by {
        assert(index[other].can_rest());
    }
}

/// With the levels before `at` strictly better than `price`, the queue at
/// `price` is that of level `at` where it has that price, and empty where it
/// is strictly worse or missing.
proof fn lemma_queue_at(levels: Seq<PriceLevel>, side: Side, price: int, at: int)
    requires
        0 <= at <= levels.len(),
        forall|j: int| 0 <= j < at ==> better(side, (#[trigger] levels[j]).price, price),
        at < levels.len() ==> !better(side, levels[at].price, price),
        forall|j: int|
            at < j < levels.len() ==> better(side, price, (#[trigger] levels[j]).price),
    ensures
        queue_at(levels, price) == if at < levels.len() && levels[at].price == price {
            levels[at].orders
        } else {
            Seq::empty()
        },
    decreases levels.len(),
{
    if levels.len() == 0 {
    } else if at == 0 {
        if levels[0].price != price {
            let rest = levels.skip(1);
            assert forall|j: int| 0 <= j < rest.len() implies better(
                side,
                price,
                (#[trigger] rest[j]).price,
            ) by {
                assert(rest[j] == levels[j + 1]);
            }
            lemma_queue_at_none(rest, side, price);
        }
    } else {
        let rest = levels.skip(1);
        assert(levels[0].price != price);
        assert forall|j: int| 0 <= j < at - 1 implies better(
            side,
            (#[trigger] rest[j]).price,
            price,
        ) by {
            assert(rest[j] == levels[j + 1]);
        }
        assert forall|j: int| at - 1 < j < rest.len() implies better(
            side,
            price,
            (#[trigger] rest[j]).price,
        ) by {
            assert(rest[j] == levels[j + 1]);
        }
        if at < levels.len() {
            assert(rest[at - 1] == levels[at]);
        }
        lemma_queue_at(rest, side, price, at - 1);
    }
}

/// No queue is found at a price that is strictly better than every level's.
proof fn lemma_queue_at_none(levels: Seq<PriceLevel>, side: Side, price: int)
    requires
        forall|j: int| 0 <= j < levels.len() ==> better(side, price, (#[trigger] levels[j]).price),
    ensures
        queue_at(levels, price) == Seq::<OrderView>::empty(),
    decreases levels.len(),
{
    if levels.len() > 0 {
        let rest = levels.skip(1);
        assert forall|j: int| 0 <= j < rest.len() implies better(
            side,
            price,
            (#[trigger] rest[j]).price,
        ) by {
            assert(rest[j] == levels[j + 1]);
        }
        lemma_queue_at_none(rest, side, price);
    }
}

} // verus!
