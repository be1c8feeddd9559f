//! The matching engine: takes an incoming order, trades it against the
//! opposite side of the book in price-time priority, records the trades, and
//! leaves what remains of a limit order resting in the book.

use crate::decimal::Decimal;
use crate::lemmas::{
    book_after_fill, lemma_match_by_level, lemma_match_index_keys, lemma_match_step,
    lemma_resting_fit, lemma_resting_front, lemma_resting_member,
};
use crate::model::{
    better, crosses, depth_view, fits_level, limited_to, match_book, match_fills, match_index,
    match_remaining, position_of, queue_at, rank, taker_of, totals_fit, trades_next, PriceLevel,
};
use crate::orderbook::{BookError, OrderBook};
use crate::trade_history::{fills_of, newest_first, Fill, Trade, TxnHistory};
use crate::types::{status_for, Order, OrderStatus, OrderType, OrderView, Side};
use std::collections::VecDeque;
use vstd::prelude::*;

verus! {

/// How much matching can still happen: one step for each resting order, and
/// one more while the taker has something left.
pub open spec fn work_left(remaining: int, book: Seq<OrderView>) -> nat {
    if remaining > 0 {
        book.len() + 1
    } else {
        book.len()
    }
}

/// Whether nothing rests on `side` at `price` any more: the side is empty,
/// or its best level is at a price strictly worse than `price`.
pub open spec fn level_used_up(levels: Seq<PriceLevel>, side: Side, price: int) -> bool {
    levels.len() == 0 || better(side, price, levels[0].price)
}

/// Whether the best level that an order on `side` can trade against is at
/// `price`.
fn best_is(order_book: &OrderBook, side: Side, price: &Decimal) -> (r: bool)
    ensures
        r == (order_book.levels(side.opposite()).len() > 0 && order_book.levels(
            side.opposite(),
        )[0].price == price@),
{
    match order_book.get_best_opposite_price(side) {
        Some(best) => best.same_value(price),
        None => false,
    }
}

/// The matching engine: an order book and the ledger of the trades that
/// matching against it has made.
pub struct MatchingEngine {
    order_book: OrderBook,
    trade_history: TxnHistory,
}

impl MatchingEngine {
    /// The engine's order book.
    pub closed spec fn book(&self) -> OrderBook {
        self.order_book
    }

    /// The trades recorded so far, oldest first.
    pub closed spec fn history(&self) -> Seq<Trade> {
        self.trade_history@
    }

    /// The engine's invariant: that of its book.
    pub open spec fn wf(&self) -> bool {
        self.book().wf()
    }

    /// An engine with an empty book and an empty ledger.
    pub fn new() -> (engine: MatchingEngine)
        ensures
            engine.wf(),
            engine.book().levels(Side::Bid) == Seq::<PriceLevel>::empty(),
            engine.book().levels(Side::Ask) == Seq::<PriceLevel>::empty(),
            engine.book().index() == Map::<u64, OrderView>::empty(),
            engine.history() == Seq::<Trade>::empty(),
    {
        MatchingEngine { order_book: OrderBook::new(), trade_history: TxnHistory::new() }
    }

    /// The best price that an order on `side` can trade against.
    fn get_best_matching_price(&self, side: Side) -> (price: Option<Decimal>)
        ensures
            match price {
                Some(p) => self.book().levels(side.opposite()).len() > 0 && p@
                    == self.book().levels(side.opposite())[0].price,
                None => self.book().levels(side.opposite()).len() == 0,
            },
    {
        self.order_book.get_best_opposite_price(side)
    }

    /// Whether `order` trades at the resting price `price`.
    pub fn should_match(order: &Order, price: Decimal) -> (r: bool)
        ensures
            r == crosses(taker_of(order@), price@),
    {
        match order.order_type {
            OrderType::Market => true,
            OrderType::Limit => match order.side {
                Side::Ask => price.ge(&order.price),
                Side::Bid => price.le(&order.price),
            },
        }
    }

    /// The status that goes with what remains of `order`.
    pub fn update_order_status(order: &Order) -> (status: OrderStatus)
        ensures
            status == status_for(order@.remaining_quantity, order@.quantity),
    {
        order.derived_status()
    }

    /// Trades `matched_order` against the best level of the opposite side,
    /// which is at `price`, oldest order first, until nothing remains of it
    /// or the level is used up. It trades as an order limited to `price`
    /// would: with that level and no further. An order with nothing left
    /// makes no trade and leaves the book as it is.
    pub fn match_at_price_level(
        order_book: &mut OrderBook,
        matched_order: &mut Order,
        price: Decimal,
    ) -> (trades: Vec<Trade>)
        requires
            old(order_book).wf(),
            old(order_book).levels(old(matched_order).side.opposite()).len() > 0,
            old(order_book).levels(old(matched_order).side.opposite())[0].price == price@,
        ensures
            final(order_book).wf(),
            ({
                let taker = limited_to(taker_of(old(matched_order)@), price@);
                let remaining = old(matched_order)@.remaining_quantity;
                let book = old(order_book).resting(old(matched_order).side.opposite());
                &&& fills_of(trades@) == match_fills(taker, remaining, book)
                &&& final(matched_order)@ == (OrderView {
                    remaining_quantity: match_remaining(taker, remaining, book),
                    ..old(matched_order)@
                })
                &&& final(order_book).resting(old(matched_order).side.opposite()) == match_book(
                    taker,
                    remaining,
                    book,
                )
                &&& final(order_book).index() == match_index(
                    taker,
                    remaining,
                    book,
                    old(order_book).index(),
                )
                &&& final(order_book).levels(old(matched_order).side) == old(order_book).levels(
                    old(matched_order).side,
                )
                &&& forall|i: int|
                    0 <= i < trades@.len() ==> (#[trigger] trades@[i]).price@ == price@
                        && trades@[i].taker_order_id == old(matched_order).id && trades@[i].side
                        == old(matched_order).side
                &&& remaining >= 0 ==> final(matched_order)@.remaining_quantity >= 0
                &&& remaining <= 0 ==> trades@.len() == 0 && final(order_book).same_as(
                    old(order_book),
                )
                &&& remaining > 0 ==> work_left(
                    final(matched_order)@.remaining_quantity,
                    final(order_book).resting(old(matched_order).side.opposite()),
                ) < work_left(remaining, book)
                &&& final(matched_order)@.remaining_quantity > 0 ==> level_used_up(
                    final(order_book).levels(old(matched_order).side.opposite()),
                    old(matched_order).side.opposite(),
                    price@,
                )
            }),
    {
        let ghost taker = limited_to(taker_of(matched_order@), price@);
        let ghost start = matched_order@;
        let ghost side = matched_order.side.opposite();
        let ghost book0 = order_book.resting(side);
        let ghost index0 = order_book.index();
        let ghost own = order_book.levels(matched_order.side);
        let mut trades: Vec<Trade> = Vec::new();
        proof {
            assert(fills_of(trades@) + match_fills(taker, start.remaining_quantity, book0)
                =~= match_fills(taker, start.remaining_quantity, book0));
            let levels = order_book.levels(side);
            lemma_resting_fit(levels, side);
            assert forall|a: int| 0 <= a < book0.len() implies !better(
                side,
                (#[trigger] book0[a]).price,
                price@,
            ) by {
                let at = lemma_resting_member(levels, side, a);
                assert(fits_level(levels[at.0].orders[at.1], levels[at.0].price, side));
                if at.0 > 0 {
                    assert(better(side, levels[0].price, levels[at.0].price));
                }
            }
        }
        while matched_order.remaining_quantity.is_positive() && best_is(
            order_book,
            matched_order.side,
            &price,
        )
            invariant
                order_book.wf(),
                matched_order@ == (OrderView {
                    remaining_quantity: matched_order@.remaining_quantity,
                    ..start
                }),
                side == start.side.opposite(),
                taker == limited_to(taker_of(start), price@),
                start.remaining_quantity >= 0 ==> matched_order@.remaining_quantity >= 0,
                order_book.levels(start.side) == own,
                fills_of(trades@) + match_fills(
                    taker,
                    matched_order@.remaining_quantity,
                    order_book.resting(side),
                ) == match_fills(taker, start.remaining_quantity, book0),
                match_remaining(
                    taker,
                    matched_order@.remaining_quantity,
                    order_book.resting(side),
                ) == match_remaining(taker, start.remaining_quantity, book0),
                match_book(taker, matched_order@.remaining_quantity, order_book.resting(side))
                    == match_book(taker, start.remaining_quantity, book0),
                match_index(
                    taker,
                    matched_order@.remaining_quantity,
                    order_book.resting(side),
                    order_book.index(),
                ) == match_index(taker, start.remaining_quantity, book0, index0),
                forall|a: int|
                    0 <= a < order_book.resting(side).len() ==> !better(
                        side,
                        (#[trigger] order_book.resting(side)[a]).price,
                        price@,
                    ),
                forall|a: int|
                    0 <= a < order_book.resting(side).len() ==> (#[trigger] order_book.resting(
                        side,
                    )[a]).remaining_quantity > 0,
                trades@.len() == 0 ==> matched_order@ == start && order_book.resting(side)
                    == book0 && order_book.same_as(old(order_book)),
                forall|i: int|
                    0 <= i < trades@.len() ==> (#[trigger] trades@[i]).price@ == price@
                        && trades@[i].taker_order_id == start.id && trades@[i].side == start.side,
                trades@.len() > 0 ==> work_left(
                    matched_order@.remaining_quantity,
                    order_book.resting(side),
                ) < work_left(start.remaining_quantity, book0),
                work_left(matched_order@.remaining_quantity, order_book.resting(side))
                    <= work_left(start.remaining_quantity, book0),
            decreases work_left(matched_order@.remaining_quantity, order_book.resting(side)),
        {
            let ghost remaining = matched_order@.remaining_quantity;
            let ghost book = order_book.resting(side);
            let ghost index = order_book.index();
            let ghost before = trades@;
            proof {
                lemma_resting_front(order_book.levels(side), side);
                assert(trades_next(taker, remaining, book));
                lemma_match_step(taker, remaining, book, index);
            }
            let trade = order_book.fill_front(matched_order);
            trades.push(trade);
            proof {
                let rest = order_book.resting(side);
                assert(rest == book_after_fill(remaining, book));
                assert(fills_of(trades@) =~= fills_of(before).push(trade.fill()));
                assert(fills_of(trades@) + match_fills(
                    taker,
                    matched_order@.remaining_quantity,
                    rest,
                ) =~= fills_of(before) + match_fills(taker, remaining, book));
                assert forall|a: int| 0 <= a < rest.len() implies !better(
                    side,
                    (#[trigger] rest[a]).price,
                    price@,
                ) && rest[a].remaining_quantity > 0 by {
                    if rest.len() == book.len() {
                        if a > 0 {
                            assert(rest[a] == book[a]);
                        } else {
                            assert(rest[0].price == book[0].price);
                        }
                    } else {
                        assert(rest[a] == book[a + 1]);
                    }
                }
            }
        }
        proof {
            let remaining = matched_order@.remaining_quantity;
            let book = order_book.resting(side);
            if remaining > 0 && book.len() > 0 {
                let levels = order_book.levels(side);
                if levels.len() == 0 {
                    assert(book.len() == 0);
                }
                lemma_resting_front(levels, side);
                assert(!crosses(taker, book[0].price));
            }
            if remaining > 0 && order_book.levels(side).len() > 0 {
                lemma_resting_front(order_book.levels(side), side);
                assert(!better(side, book[0].price, price@));
            }
            assert(!trades_next(taker, remaining, book));
            assert(fills_of(trades@) + Seq::<Fill>::empty() =~= fills_of(trades@));
        }
        trades
    }

    /// Matches `order` against the opposite side of the book, best price
    /// first and oldest order first within a price, for as long as something
    /// remains of it and the best price crosses. The trades are put into the
    /// ledger together once matching is over. Returns the order as matching
    /// left it, with the status that goes with what remains.
    fn match_order(&mut self, order: &Order) -> (matched: Order)
        requires
            old(self).wf(),
        ensures
            final(self).wf(),
            ({
                let taker = taker_of(order@);
                let remaining = order@.remaining_quantity;
                let book = old(self).book().resting(order.side.opposite());
                let left = match_remaining(taker, remaining, book);
                &&& matched@ == (OrderView {
                    remaining_quantity: left,
                    status: status_for(left, order@.quantity),
                    ..order@
                })
                &&& old(self).history().is_prefix_of(final(self).history())
                &&& fills_of(newer(old(self).history(), final(self).history())) == match_fills(
                    taker,
                    remaining,
                    book,
                )
                &&& final(self).book().resting(order.side.opposite()) == match_book(
                    taker,
                    remaining,
                    book,
                )
                &&& final(self).book().index() == match_index(
                    taker,
                    remaining,
                    book,
                    old(self).book().index(),
                )
                &&& final(self).book().levels(order.side) == old(self).book().levels(order.side)
            }),
    {
        let ghost taker = taker_of(order@);
        let ghost side = order.side.opposite();
        let ghost book0 = self.book().resting(side);
        let ghost index0 = self.book().index();
        let ghost own = self.book().levels(order.side);
        let ghost history0 = self.history();
        let mut matched_order = *order;
        let mut trades_to_record: Vec<Trade> = Vec::new();
        proof {
            assert(fills_of(trades_to_record@) + match_fills(
                taker,
                order@.remaining_quantity,
                book0,
            ) =~= match_fills(taker, order@.remaining_quantity, book0));
        }
        while matched_order.remaining_quantity.is_positive()
            invariant
                self.wf(),
                matched_order@ == (OrderView {
                    remaining_quantity: matched_order@.remaining_quantity,
                    ..order@
                }),
                side == order.side.opposite(),
                taker == taker_of(order@),
                self.history() == history0,
                self.book().levels(order.side) == own,
                fills_of(trades_to_record@) + match_fills(
                    taker,
                    matched_order@.remaining_quantity,
                    self.book().resting(side),
                ) == match_fills(taker, order@.remaining_quantity, book0),
                match_remaining(
                    taker,
                    matched_order@.remaining_quantity,
                    self.book().resting(side),
                ) == match_remaining(taker, order@.remaining_quantity, book0),
                match_book(taker, matched_order@.remaining_quantity, self.book().resting(side))
                    == match_book(taker, order@.remaining_quantity, book0),
                match_index(
                    taker,
                    matched_order@.remaining_quantity,
                    self.book().resting(side),
                    self.book().index(),
                ) == match_index(taker, order@.remaining_quantity, book0, index0),
            ensures
                !trades_next(
                    taker,
                    matched_order@.remaining_quantity,
                    self.book().resting(side),
                ),
            decreases work_left(matched_order@.remaining_quantity, self.book().resting(side)),
        {
            let best_price = self.get_best_matching_price(order.side);
            match best_price {
                Some(price) => {
                    proof {
                        lemma_resting_front(self.book().levels(side), side);
                    }
                    if !Self::should_match(&matched_order, price) {
                        break ;
                    }
                    let ghost remaining = matched_order@.remaining_quantity;
                    let ghost book = self.book().resting(side);
                    let ghost index = self.book().index();
                    let ghost before = trades_to_record@;
                    let mut level_trades = Self::match_at_price_level(
                        &mut self.order_book,
                        &mut matched_order,
                        price,
                    );
                    let ghost batch = level_trades@;
                    trades_to_record.append(&mut level_trades);
                    proof {
                        lemma_match_by_level(taker, price@, remaining, book, index);
                        assert(fills_of(trades_to_record@) =~= fills_of(before) + fills_of(batch));
                        assert(fills_of(trades_to_record@) + match_fills(
                            taker,
                            matched_order@.remaining_quantity,
                            self.book().resting(side),
                        ) =~= fills_of(before) + match_fills(taker, remaining, book));
                    }
                },
                None => {
                    break ;
                },
            }
        }
        self.trade_history.add_trades(&trades_to_record);
        matched_order.status = Self::update_order_status(&matched_order);
        proof {
            assert(fills_of(trades_to_record@) + Seq::<Fill>::empty() =~= fills_of(
                trades_to_record@,
            ));
            assert(newer(history0, self.history()) =~= trades_to_record@);
        }
        matched_order
    }

    /// Matches a limit order and puts what remains of it to rest.
    fn place_limit_order(&mut self, order: Order) -> (placed: Order)
        requires
            old(self).wf(),
            !old(self).book().index().contains_key(order.id),
        ensures
            final(self).wf(),
            final(self).placed(old(self), order@, placed@),
    {
        proof {
            lemma_index_covers(self.book(), order.side.opposite());
            lemma_match_index_keys(
                taker_of(order@),
                order@.remaining_quantity,
                self.book().resting(order.side.opposite()),
                self.book().index(),
            );
        }
        let matched_order = self.match_order(&order);
        if matched_order.remaining_quantity.is_positive() {
            self.order_book.place_order(matched_order);
        } else {
            self.order_book.record_order(matched_order);
        }
        matched_order
    }

    /// Matches a market order and records what became of it. Nothing of it
    /// rests.
    fn place_market_order(&mut self, order: Order) -> (placed: Order)
        requires
            old(self).wf(),
            !old(self).book().index().contains_key(order.id),
            order.order_type == OrderType::Market,
        ensures
            final(self).wf(),
            final(self).placed(old(self), order@, placed@),
    {
        proof {
            lemma_index_covers(self.book(), order.side.opposite());
            lemma_match_index_keys(
                taker_of(order@),
                order@.remaining_quantity,
                self.book().resting(order.side.opposite()),
                self.book().index(),
            );
        }
        let matched_order = self.match_order(&order);
        self.order_book.record_order(matched_order);
        matched_order
    }

    /// What placing an order with an unknown id does, from the engine
    /// `before` to `self`: `order` is matched against the opposite side, the
    /// fills are appended to the ledger, `placed` is the order with what
    /// remains and the status that goes with it, it is recorded under its
    /// id, and it rests at the place its price ranks it where it may rest.
    pub open spec fn placed(
        &self,
        before: &MatchingEngine,
        order: OrderView,
        placed: OrderView,
    ) -> bool {
        let taker = taker_of(order);
        let remaining = order.remaining_quantity;
        let book = before.book().resting(order.side.opposite());
        let left = match_remaining(taker, remaining, book);
        &&& placed == (OrderView {
            remaining_quantity: left,
            status: status_for(left, order.quantity),
            ..order
        })
        &&& before.history().is_prefix_of(self.history())
        &&& fills_of(newer(before.history(), self.history())) == match_fills(
            taker,
            remaining,
            book,
        )
        &&& self.book().resting(order.side.opposite()) == match_book(taker, remaining, book)
        &&& self.book().index() == match_index(
            taker,
            remaining,
            book,
            before.book().index(),
        ).insert(order.id, placed)
        &&& placed.can_rest() ==> self.book().resting(order.side) == before.book().resting(
            order.side,
        ).insert(rank(before.book().resting(order.side), order.side, order.price), placed)
        &&& !placed.can_rest() ==> self.book().levels(order.side) == before.book().levels(
            order.side,
        )
    }

    /// What [`MatchingEngine::place_order`] does to the engine `before`
    /// when it is given `order` and returns `placed`: an order with a known
    /// id changes nothing and is answered with the record under that id;
    /// any other is placed.
    pub open spec fn answers(&self, before: &MatchingEngine, order: Order, placed: Order) -> bool {
        if before.book().index().contains_key(order.id) {
            self.unchanged(before) && placed@ == before.book().index()[order.id]
        } else {
            self.placed(before, order@, placed@)
        }
    }

    /// Whether `before` and `self` hold the same book and the same ledger.
    pub open spec fn unchanged(&self, before: &MatchingEngine) -> bool {
        self.book().same_as(&before.book()) && self.history() == before.history()
    }

    /// Submits `order` to the engine.
    ///
    /// An order whose id is already known is turned away: nothing changes
    /// and the record held under that id is returned. Otherwise the order is
    /// matched against the opposite side in price-time priority and the
    /// trades are recorded. What remains of a limit order rests in the book;
    /// nothing of a market order does. The order is returned as matching
    /// left it.
    pub fn place_order(&mut self, order: Order) -> (placed: Order)
        requires
            old(self).wf(),
        ensures
            final(self).wf(),
            old(self).book().index().contains_key(order.id) ==> final(self).unchanged(old(self))
                && placed@ == old(self).book().index()[order.id],
            !old(self).book().index().contains_key(order.id) ==> final(self).placed(
                old(self),
                order@,
                placed@,
            ),
    {
        match self.order_book.get_order_status(order.id) {
            Some(known) => {
                return *known;
            },
            None => {},
        }
        match order.order_type {
            OrderType::Limit => self.place_limit_order(order),
            OrderType::Market => self.place_market_order(order),
        }
    }

    /// Cancels the resting order with id `order_id`: it leaves the book and
    /// is recorded as cancelled. Returns the cancelled order, or `None`,
    /// with nothing changed, where no order with that id rests.
    pub fn cancel_order(&mut self, order_id: u64) -> (cancelled: Option<Order>)
        requires
            old(self).wf(),
        ensures
            final(self).wf(),
            final(self).history() == old(self).history(),
            cancelled is Some <==> old(self).book().index().contains_key(order_id) && old(
                self,
            ).book().index()[order_id].can_rest(),
            match cancelled {
                Some(o) => {
                    &&& o@ == old(self).book().index()[order_id].cancelled()
                    &&& final(self).book().index() == old(self).book().index().insert(
                        order_id,
                        o@,
                    )
                    &&& final(self).book().resting(o.side) == old(self).book().resting(
                        o.side,
                    ).remove(position_of(old(self).book().resting(o.side), order_id))
                    &&& final(self).book().levels(o.side.opposite()) == old(self).book().levels(
                        o.side.opposite(),
                    )
                },
                None => final(self).unchanged(old(self)),
            },
    {
        let resting = match self.order_book.get_order_status(order_id) {
            Some(known) => known.is_restable(),
            None => false,
        };
        if !resting {
            return None;
        }
        match self.order_book.remove_order(order_id) {
            Some(removed) => {
                let mut order = removed;
                order.status = OrderStatus::Cancelled;
                self.order_book.record_order(order);
                proof {
                    assert(self.book().index() =~= old(self).book().index().insert(
                        order_id,
                        order@,
                    ));
                }
                Some(order)
            },
            None => None,
        }
    }

    /// The book to a depth of `depth` levels: see
    /// [`OrderBook::get_order_book`].
    pub fn get_order_book(&self, depth: usize) -> (rows: Result<
        (Vec<(Decimal, Decimal)>, Vec<(Decimal, Decimal)>),
        BookError,
    >)
        requires
            self.wf(),
        ensures
            rows is Ok <==> totals_fit(self.book().levels(Side::Bid), depth as nat) && totals_fit(
                self.book().levels(Side::Ask),
                depth as nat,
            ),
            rows matches Ok(r) ==> r.0@.map_values(|row: (Decimal, Decimal)| (row.0@, row.1@))
                == depth_view(self.book().levels(Side::Bid), depth as nat) && r.1@.map_values(
                |row: (Decimal, Decimal)| (row.0@, row.1@),
            ) == depth_view(self.book().levels(Side::Ask), depth as nat),
            rows matches Err(e) ==> e == BookError::TotalTooLarge,
    {
        self.order_book.get_order_book(depth)
    }

    /// The record kept under `order_id`, if the id is known.
    pub fn get_order_status(&self, order_id: u64) -> (order: Option<&Order>)
        ensures
            match order {
                Some(o) => self.book().index().contains_key(order_id) && o@
                    == self.book().index()[order_id],
                None => !self.book().index().contains_key(order_id),
            },
    {
        self.order_book.get_order_status(order_id)
    }

    /// The orders resting on `side` at `price`, oldest first.
    pub fn orders_at_price(&self, price: Decimal, side: Side) -> (orders: VecDeque<Order>)
        requires
            self.wf(),
        ensures
            orders@.map_values(|o: Order| o@) == queue_at(self.book().levels(side), price@),
    {
        self.order_book.orders_at_price(price, side)
    }

    /// The highest price bid, if any bid rests.
    pub fn best_bid(&self) -> (price: Option<Decimal>)
        ensures
            match price {
                Some(p) => self.book().levels(Side::Bid).len() > 0 && p@ == self.book().levels(
                    Side::Bid,
                )[0].price,
                None => self.book().levels(Side::Bid).len() == 0,
            },
    {
        self.order_book.best_bid()
    }

    /// The lowest price asked, if any ask rests.
    pub fn best_ask(&self) -> (price: Option<Decimal>)
        ensures
            match price {
                Some(p) => self.book().levels(Side::Ask).len() > 0 && p@ == self.book().levels(
                    Side::Ask,
                )[0].price,
                None => self.book().levels(Side::Ask).len() == 0,
            },
    {
        self.order_book.best_ask()
    }

    /// The recorded trades: the newest `n` of them, newest first, for
    /// `Some(n)`; all of them, oldest first, for `None`.
    pub fn get_trade_history(&self, limit: Option<usize>) -> (trades: Vec<Trade>)
        ensures
            trades@ == match limit {
                Some(n) => newest_first(self.history(), n as nat),
                None => self.history(),
            },
    {
        match limit {
            Some(n) => self.trade_history.get_recent_trades(n),
            None => self.trade_history.get_trades(),
        }
    }
}

/// Every order resting on `side` of a well-formed book is in its index.
proof fn lemma_index_covers(book: OrderBook, side: Side)
    requires
        book.wf(),
    ensures
        forall|a: int|
            0 <= a < book.resting(side).len() ==> book.index().contains_key(
                (#[trigger] book.resting(side)[a]).id,
            ),
{
    let bids = book.resting(Side::Bid);
    let asks = book.resting(Side::Ask);
    let all = bids + asks;
    assert forall|a: int| 0 <= a < book.resting(side).len() implies book.index().contains_key(
        (#[trigger] book.resting(side)[a]).id,
    ) by {
        match side {
            Side::Bid => {
                assert(all[a] == bids[a]);
            },
            Side::Ask => {
                assert(all[a + bids.len()] == asks[a]);
            },
        }
    }
}

/// The trades that the ledger `after` holds beyond those of `before`.
pub open spec fn newer(before: Seq<Trade>, after: Seq<Trade>) -> Seq<Trade> {
    after.skip(before.len() as int)
}

} // verus!
