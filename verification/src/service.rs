//! The request and response forms of the engine's four operations, and the
//! service that answers them.
//!
//! Prices and quantities travel as text, sides, types and statuses as
//! numbers. The service parses a request, hands the order to the engine,
//! and writes the answer out.

use crate::decimal::{parse_fits, parsed_decimal, parsed_value, renders, Decimal};
use crate::matchingengine::MatchingEngine;
use crate::model::{depth_view, position_of, totals_fit};
use crate::trade_history::{newest_first, Trade};
use crate::types::{Order, OrderStatus, OrderType, Side, Timestamp};
use vstd::prelude::*;

verus! {

/// A request to place an order.
#[derive(Debug, Clone, PartialEq, Eq)]
pub struct OrderRequest {
    pub id: u64,
    pub price: String,
    pub quantity: String,
    pub side: i32,
    pub order_type: i32,
}

/// An order as the service reports it.
#[derive(Debug, Clone, PartialEq, Eq)]
pub struct OrderResponse {
    pub id: u64,
    pub price: String,
    pub quantity: String,
    pub remaining_quantity: String,
    pub side: i32,
    pub order_type: i32,
    pub status: i32,
    pub timestamp_seconds: i64,
    pub timestamp_nanos: u32,
}

/// One level of a book snapshot.
#[derive(Debug, Clone, PartialEq, Eq)]
pub struct OrderBookLevel {
    pub price: String,
    pub quantity: String,
}

/// A book snapshot: bids and asks, each best price first.
#[derive(Debug, Clone, PartialEq, Eq)]
pub struct OrderBookResponse {
    pub bids: Vec<OrderBookLevel>,
    pub asks: Vec<OrderBookLevel>,
}

/// A trade as the service reports it.
#[derive(Debug, Clone, PartialEq, Eq)]
pub struct TradeResponse {
    pub maker_order_id: u64,
    pub taker_order_id: u64,
    pub price: String,
    pub quantity: String,
    pub side: i32,
    pub timestamp_seconds: i64,
    pub timestamp_nanos: u32,
}

/// A list of trades.
#[derive(Debug, Clone, PartialEq, Eq)]
pub struct TradeHistoryResponse {
    pub trades: Vec<TradeResponse>,
}

/// Why the service turned a request down.
#[derive(Debug, Clone, Copy, PartialEq, Eq, Structural)]
pub enum ServiceError {
    /// The price is not a decimal amount that can be held.
    InvalidPrice,
    /// The quantity is not a decimal amount that can be held.
    InvalidQuantity,
    /// No order with that id is known, or none that can be cancelled.
    NotFound,
    /// The total of a price level is more than the largest amount that can
    /// be held.
    TotalTooLarge,
}

/// The number that stands for a side.
pub open spec fn side_code(side: Side) -> i32 {
    match side {
        Side::Bid => 0,
        Side::Ask => 1,
    }
}

/// The side that a number stands for: zero is a bid, anything else an ask.
pub open spec fn side_from_code(code: i32) -> Side {
    if code == 0 {
        Side::Bid
    } else {
        Side::Ask
    }
}

/// The number that stands for an order type.
pub open spec fn type_code(order_type: OrderType) -> i32 {
    match order_type {
        OrderType::Limit => 0,
        OrderType::Market => 1,
    }
}

/// The order type that a number stands for: zero is a limit order,
/// anything else a market order.
pub open spec fn type_from_code(code: i32) -> OrderType {
    if code == 0 {
        OrderType::Limit
    } else {
        OrderType::Market
    }
}

/// The number that stands for a status.
pub open spec fn status_code(status: OrderStatus) -> i32 {
    match status {
        OrderStatus::Pending => 0,
        OrderStatus::PartiallyFilled => 1,
        OrderStatus::Filled => 2,
        OrderStatus::Cancelled => 3,
    }
}

/// Whether `order` is the new order that `request` asks for, submitted at
/// `timestamp`.
pub open spec fn asks_for(request: &OrderRequest, order: &Order, timestamp: Timestamp) -> bool {
    &&& order.id == request.id
    &&& order.price@ == parsed_value(parsed_decimal(request.price@))
    &&& order.quantity@ == parsed_value(parsed_decimal(request.quantity@))
    &&& order.remaining_quantity == order.quantity
    &&& order.side == side_from_code(request.side)
    &&& order.order_type == type_from_code(request.order_type)
    &&& order.status == OrderStatus::Pending
    &&& order.timestamp == timestamp
}

/// Whether `response` reports `order`.
pub open spec fn shows(response: &OrderResponse, order: &Order) -> bool {
    &&& order.price.valid() && order.quantity.valid() && order.remaining_quantity.valid()
    &&& response.id == order.id
    &&& response.price@ == order.price.text()
    &&& response.quantity@ == order.quantity.text()
    &&& response.remaining_quantity@ == order.remaining_quantity.text()
    &&& response.side == side_code(order.side)
    &&& response.order_type == type_code(order.order_type)
    &&& response.status == status_code(order.status)
    &&& response.timestamp_seconds == order.timestamp.seconds
    &&& response.timestamp_nanos == order.timestamp.nanos
}

/// Whether `response` reports `trade`.
pub open spec fn shows_trade(response: &TradeResponse, trade: &Trade) -> bool {
    &&& trade.price.valid() && trade.quantity.valid()
    &&& response.maker_order_id == trade.maker_order_id
    &&& response.taker_order_id == trade.taker_order_id
    &&& response.price@ == trade.price.text()
    &&& response.quantity@ == trade.quantity.text()
    &&& response.side == side_code(trade.side)
    &&& response.timestamp_seconds == trade.timestamp.seconds
    &&& response.timestamp_nanos == trade.timestamp.nanos
}

/// Whether `levels` reports the rows `rows` of a snapshot, one level for
/// each row, with the row's price and total written out.
pub open spec fn shows_levels(levels: Seq<OrderBookLevel>, rows: Seq<(int, int)>) -> bool {
    &&& levels.len() == rows.len()
    &&& forall|i: int|
        0 <= i < levels.len() ==> renders(rows[i].0, (#[trigger] levels[i]).price@) && renders(
            rows[i].1,
            levels[i].quantity@,
        )
}

/// The number that stands for `side`.
pub fn encode_side(side: Side) -> (code: i32)
    ensures
        code == side_code(side),
{
    match side {
        Side::Bid => 0,
        Side::Ask => 1,
    }
}

/// The number that stands for `order_type`.
pub fn encode_type(order_type: OrderType) -> (code: i32)
    ensures
        code == type_code(order_type),
{
    match order_type {
        OrderType::Limit => 0,
        OrderType::Market => 1,
    }
}

/// The number that stands for `status`.
pub fn encode_status(status: OrderStatus) -> (code: i32)
    ensures
        code == status_code(status),
{
    match status {
        OrderStatus::Pending => 0,
        OrderStatus::PartiallyFilled => 1,
        OrderStatus::Filled => 2,
        OrderStatus::Cancelled => 3,
    }
}

/// Reads the order that `request` asks for, to be submitted at
/// `timestamp`. The price is read first: a request with a bad price is
/// turned down for its price whatever its quantity.
pub fn parse_request(request: &OrderRequest, timestamp: Timestamp) -> (order: Result<
    Order,
    ServiceError,
>)
    ensures
        order is Ok <==> parse_fits(parsed_decimal(request.price@)) && parse_fits(
            parsed_decimal(request.quantity@),
        ),
        match order {
            Ok(o) => asks_for(request, &o, timestamp),
            Err(e) => e == if !parse_fits(parsed_decimal(request.price@)) {
                ServiceError::InvalidPrice
            } else {
                ServiceError::InvalidQuantity
            },
        },
{
    let price = match Decimal::from_str(request.price.as_str()) {
        Ok(d) => d,
        Err(_) => {
            return Err(ServiceError::InvalidPrice);
        },
    };
    let quantity = match Decimal::from_str(request.quantity.as_str()) {
        Ok(d) => d,
        Err(_) => {
            return Err(ServiceError::InvalidQuantity);
        },
    };
    let side = if request.side == 0 {
        Side::Bid
    } else {
        Side::Ask
    };
    let order_type = if request.order_type == 0 {
        OrderType::Limit
    } else {
        OrderType::Market
    };
    Ok(Order::with_timestamp(request.id, price, quantity, side, order_type, timestamp))
}

/// Writes `order` out as a response.
pub fn order_response(order: &Order) -> (response: OrderResponse)
    ensures
        shows(&response, order),
{
    OrderResponse {
        id: order.id,
        price: order.price.to_string(),
        quantity: order.quantity.to_string(),
        remaining_quantity: order.remaining_quantity.to_string(),
        side: encode_side(order.side),
        order_type: encode_type(order.order_type),
        status: encode_status(order.status),
        timestamp_seconds: order.timestamp.seconds,
        timestamp_nanos: order.timestamp.nanos,
    }
}

/// Writes `trade` out as a response.
pub fn trade_response(trade: &Trade) -> (response: TradeResponse)
    ensures
        shows_trade(&response, trade),
{
    TradeResponse {
        maker_order_id: trade.maker_order_id,
        taker_order_id: trade.taker_order_id,
        price: trade.price.to_string(),
        quantity: trade.quantity.to_string(),
        side: encode_side(trade.side),
        timestamp_seconds: trade.timestamp.seconds,
        timestamp_nanos: trade.timestamp.nanos,
    }
}

/// Writes the rows of one side of a snapshot out as levels.
pub fn levels_response(rows: &Vec<(Decimal, Decimal)>) -> (levels: Vec<OrderBookLevel>)
    ensures
        shows_levels(levels@, rows@.map_values(|row: (Decimal, Decimal)| (row.0@, row.1@))),
        levels@.len() == rows@.len(),
        forall|i: int|
            0 <= i < rows@.len() ==> (#[trigger] levels@[i]).price@ == rows@[i].0.text()
                && levels@[i].quantity@ == rows@[i].1.text(),
{
    let mut levels: Vec<OrderBookLevel> = Vec::new();
    let mut i: usize = 0;
    while i < rows.len()
        invariant
            i <= rows@.len(),
            levels@.len() == i,
            forall|j: int|
                0 <= j < i ==> (#[trigger] levels@[j]).price@ == rows@[j].0.text()
                    && levels@[j].quantity@ == rows@[j].1.text() && renders(
                    rows@[j].0@,
                    levels@[j].price@,
                ) && renders(rows@[j].1@, levels@[j].quantity@),
        decreases rows@.len() - i,
    {
        let price = rows[i].0.to_string();
        let quantity = rows[i].1.to_string();
        levels.push(OrderBookLevel { price, quantity });
        i += 1;
    }
    levels
}

/// Writes a list of trades out, keeping their order.
pub fn trades_response(trades: &Vec<Trade>) -> (response: TradeHistoryResponse)
    ensures
        response.trades@.len() == trades@.len(),
        forall|i: int|
            0 <= i < trades@.len() ==> shows_trade(&#[trigger] response.trades@[i], &trades@[i]),
{
    let mut out: Vec<TradeResponse> = Vec::new();
    let mut i: usize = 0;
    while i < trades.len()
        invariant
            i <= trades@.len(),
            out@.len() == i,
            forall|j: int| 0 <= j < i ==> shows_trade(&#[trigger] out@[j], &trades@[j]),
        decreases trades@.len() - i,
    {
        out.push(trade_response(&trades[i]));
        i += 1;
    }
    TradeHistoryResponse { trades: out }
}

/// The order book service: a matching engine behind the request and
/// response forms.
pub struct OrderBookService {
    engine: MatchingEngine,
}

impl OrderBookService {
    /// The engine that the service answers from.
    pub closed spec fn engine(&self) -> MatchingEngine {
        self.engine
    }

    /// The service's invariant: that of its engine.
    pub open spec fn wf(&self) -> bool {
        self.engine().wf()
    }

    /// A service that answers from `engine`.
    pub fn new(engine: MatchingEngine) -> (service: OrderBookService)
        ensures
            service.engine() == engine,
    {
        OrderBookService { engine }
    }

    /// Places the order that `request` asks for, stamped with the current
    /// time, and reports it as placing left it. A request whose price or
    /// quantity cannot be read is turned down and changes nothing.
    pub fn place_order(&mut self, request: &OrderRequest) -> (response: Result<
        OrderResponse,
        ServiceError,
    >)
        requires
            old(self).wf(),
        ensures
            final(self).wf(),
            response is Ok <==> parse_fits(parsed_decimal(request.price@)) && parse_fits(
                parsed_decimal(request.quantity@),
            ),
            match response {
                Ok(r) => exists|order: Order, placed: Order|
                    {
                        &&& asks_for(request, &order, order.timestamp)
                        &&& #[trigger] final(self).engine().answers(
                            &old(self).engine(),
                            order,
                            placed,
                        )
                        &&& shows(&r, &placed)
                    },
                Err(e) => {
                    &&& final(self).engine() == old(self).engine()
                    &&& e == if !parse_fits(parsed_decimal(request.price@)) {
                        ServiceError::InvalidPrice
                    } else {
                        ServiceError::InvalidQuantity
                    }
                },
            },
    {
        let order = match parse_request(request, Timestamp::now()) {
            Ok(order) => order,
            Err(e) => {
                return Err(e);
            },
        };
        let placed = self.engine.place_order(order);
        let response = order_response(&placed);
        proof {
            assert(self.engine().answers(&old(self).engine(), order, placed));
        }
        Ok(response)
    }

    /// Cancels the resting order with id `order_id` and reports it as
    /// cancelled; `NotFound`, with nothing changed, where no order with
    /// that id rests.
    pub fn cancel_order(&mut self, order_id: u64) -> (response: Result<
        OrderResponse,
        ServiceError,
    >)
        requires
            old(self).wf(),
        ensures
            final(self).wf(),
            response is Ok <==> old(self).engine().book().index().contains_key(order_id) && old(
                self,
            ).engine().book().index()[order_id].can_rest(),
            match response {
                Ok(r) => exists|cancelled: Order|
                    {
                        &&& #[trigger] shows(&r, &cancelled)
                        &&& cancelled@ == old(self).engine().book().index()[order_id].cancelled()
                        &&& final(self).engine().book().index() == old(
                            self,
                        ).engine().book().index().insert(order_id, cancelled@)
                        &&& final(self).engine().book().resting(cancelled.side) == old(
                            self,
                        ).engine().book().resting(cancelled.side).remove(
                            position_of(
                                old(self).engine().book().resting(cancelled.side),
                                order_id,
                            ),
                        )
                        &&& final(self).engine().book().levels(cancelled.side.opposite()) == old(
                            self,
                        ).engine().book().levels(cancelled.side.opposite())
                        &&& final(self).engine().history() == old(self).engine().history()
                    },
                Err(e) => e == ServiceError::NotFound && final(self).engine().unchanged(
                    &old(self).engine(),
                ),
            },
    {
        match self.engine.cancel_order(order_id) {
            Some(cancelled) => {
                let response = order_response(&cancelled);
                proof {
                    assert(shows(&response, &cancelled));
                    assert(cancelled@ == old(self).engine().book().index()[order_id].cancelled());
                    assert(self.engine().book().index() == old(
                        self,
                    ).engine().book().index().insert(order_id, cancelled@));
                }
                let answer: Result<OrderResponse, ServiceError> = Ok(response);
                proof {
                    assert(shows(&answer->Ok_0, &cancelled));
                }
                answer
            },
            None => Err(ServiceError::NotFound),
        }
    }

    /// The book to a depth of `depth` levels, prices and totals written
    /// out; `TotalTooLarge` where the total of one of those levels is more
    /// than the largest amount that can be held.
    pub fn get_order_book(&self, depth: u32) -> (response: Result<
        OrderBookResponse,
        ServiceError,
    >)
        requires
            self.wf(),
        ensures
            response is Ok <==> totals_fit(self.engine().book().levels(Side::Bid), depth as nat)
                && totals_fit(self.engine().book().levels(Side::Ask), depth as nat),
            response matches Ok(r) ==> shows_levels(
                r.bids@,
                depth_view(self.engine().book().levels(Side::Bid), depth as nat),
            ) && shows_levels(
                r.asks@,
                depth_view(self.engine().book().levels(Side::Ask), depth as nat),
            ),
            response matches Err(e) ==> e == ServiceError::TotalTooLarge,
    {
        match self.engine.get_order_book(depth as usize) {
            Ok(rows) => Ok(
                OrderBookResponse { bids: levels_response(&rows.0), asks: levels_response(&rows.1) },
            ),
            Err(_) => Err(ServiceError::TotalTooLarge),
        }
    }

    /// The record kept under `order_id`; `NotFound` for an unknown id.
    pub fn get_order_status(&self, order_id: u64) -> (response: Result<OrderResponse, ServiceError>)
        ensures
            response is Ok <==> self.engine().book().index().contains_key(order_id),
            match response {
                Ok(r) => exists|order: Order|
                    #[trigger] shows(&r, &order) && order@
                        == self.engine().book().index()[order_id],
                Err(e) => e == ServiceError::NotFound,
            },
    {
        match self.engine.get_order_status(order_id) {
            Some(order) => {
                let response = order_response(order);
                proof {
                    assert(shows(&response, order));
                    assert(order@ == self.engine().book().index()[order_id]);
                }
                let answer: Result<OrderResponse, ServiceError> = Ok(response);
                proof {
                    assert(shows(&answer->Ok_0, order));
                }
                answer
            },
            None => Err(ServiceError::NotFound),
        }
    }

    /// The newest `limit` trades, newest first.
    pub fn get_trade_history(&self, limit: u32) -> (response: TradeHistoryResponse)
        ensures
            response.trades@.len() == newest_first(self.engine().history(), limit as nat).len(),
            forall|i: int|
                0 <= i < response.trades@.len() ==> shows_trade(
                    &#[trigger] response.trades@[i],
                    &newest_first(self.engine().history(), limit as nat)[i],
                ),
    {
        let trades = self.engine.get_trade_history(Some(limit as usize));
        trades_response(&trades)
    }
}

} // verus!
