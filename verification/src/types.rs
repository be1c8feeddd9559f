//! Orders and the small vocabulary they are written in.

use crate::decimal::Decimal;
use std::cmp::Ordering;
use vstd::prelude::*;

verus! {

/// Which side of the book an order is on.
#[derive(Debug, Clone, Copy, PartialEq, Eq, Structural)]
pub enum Side {
    Bid,
    Ask,
}

/// Whether an order names a limit price or takes whatever the book offers.
#[derive(Debug, Clone, Copy, PartialEq, Eq, Structural)]
pub enum OrderType {
    Limit,
    Market,
}

/// How far an order has been filled.
#[derive(Debug, Clone, Copy, PartialEq, Eq, Structural)]
pub enum OrderStatus {
    Pending,
    PartiallyFilled,
    Filled,
    Cancelled,
}

/// An instant: whole seconds since the Unix epoch and the nanoseconds past
/// them.
#[derive(Debug, Clone, Copy, PartialEq, Eq, Structural)]
pub struct Timestamp {
    pub seconds: i64,
    pub nanos: u32,
}

/// The nanoseconds of an instant read from the clock stay below this: below
/// one second, or below two within a leap second.
pub const NANOS_LIMIT: u32 = 2_000_000_000;

/// Calls `chrono::Utc::now` and splits the instant with
/// `DateTime::timestamp` and `DateTime::timestamp_subsec_nanos`.
///
/// Which instant it is is whatever the clock says, and nothing is claimed of
/// the seconds. Of the nanoseconds `chrono` documents the range: from 0 to
/// 999,999,999, or to 1,999,999,999 within a leap second. `chrono` panics
/// where the system clock stands before the Unix epoch; no contract here can
/// speak of the clock.
#[verifier::external_body]
fn clock_now() -> (t: Timestamp)
    ensures
        t.nanos < NANOS_LIMIT,
{
    let now = chrono::Utc::now();
    Timestamp { seconds: now.timestamp(), nanos: now.timestamp_subsec_nanos() }
}

impl Timestamp {
    /// The current instant, read from the system clock: the whole seconds
    /// since the Unix epoch and the nanoseconds past them, which stay below
    /// two seconds' worth.
    pub fn now() -> (t: Timestamp)
        ensures
            t.nanos < NANOS_LIMIT,
    {
        clock_now()
    }

    /// Whether `self` is strictly earlier than `other`.
    pub open spec fn before(&self, other: &Timestamp) -> bool {
        self.seconds < other.seconds || (self.seconds == other.seconds && self.nanos
            < other.nanos)
    }

    /// Whether `self` is strictly earlier than `other`.
    pub fn is_before(&self, other: &Timestamp) -> (r: bool)
        ensures
            r == self.before(other),
    {
        self.seconds < other.seconds || (self.seconds == other.seconds && self.nanos
            < other.nanos)
    }
}

impl Timestamp {
    /// How two instants compare: by seconds, then by nanoseconds.
    pub open spec fn chronology(&self, other: &Timestamp) -> Ordering {
        if self.before(other) {
            Ordering::Less
        } else if other.before(self) {
            Ordering::Greater
        } else {
            Ordering::Equal
        }
    }

    /// How two instants compare.
    pub fn compare(&self, other: &Timestamp) -> (r: Ordering)
        ensures
            r == self.chronology(other),
    {
        if self.is_before(other) {
            Ordering::Less
        } else if other.is_before(self) {
            Ordering::Greater
        } else {
            Ordering::Equal
        }
    }
}

impl Side {
    /// The side an order on this side trades against.
    pub open spec fn opposite(self) -> Side {
        match self {
            Side::Bid => Side::Ask,
            Side::Ask => Side::Bid,
        }
    }

    /// The side an order on this side trades against.
    pub fn other(self) -> (r: Side)
        ensures
            r == self.opposite(),
    {
        match self {
            Side::Bid => Side::Ask,
            Side::Ask => Side::Bid,
        }
    }
}

/// The status that goes with `remaining` left of an order for `quantity`:
/// filled when nothing is left, partially filled when less than the whole is
/// left, pending otherwise.
pub open spec fn status_for(remaining: int, quantity: int) -> OrderStatus {
    if remaining == 0 {
        OrderStatus::Filled
    } else if remaining < quantity {
        OrderStatus::PartiallyFilled
    } else {
        OrderStatus::Pending
    }
}

/// An order as the contracts see it: prices and quantities are whole numbers
/// of 10^-8 units.
pub struct OrderView {
    pub id: u64,
    pub price: int,
    pub quantity: int,
    pub remaining_quantity: int,
    pub side: Side,
    pub order_type: OrderType,
    pub status: OrderStatus,
    pub timestamp: Timestamp,
}

/// An order to buy or sell.
#[derive(Debug, Clone, Copy, PartialEq, Eq)]
pub struct Order {
    pub id: u64,
    pub price: Decimal,
    pub quantity: Decimal,
    pub remaining_quantity: Decimal,
    pub side: Side,
    pub order_type: OrderType,
    pub status: OrderStatus,
    pub timestamp: Timestamp,
}

impl View for Order {
    type V = OrderView;

    open spec fn view(&self) -> OrderView {
        OrderView {
            id: self.id,
            price: self.price@,
            quantity: self.quantity@,
            remaining_quantity: self.remaining_quantity@,
            side: self.side,
            order_type: self.order_type,
            status: self.status,
            timestamp: self.timestamp,
        }
    }
}

impl OrderView {
    /// The data-model invariant of an order that was never cancelled: the
    /// remaining quantity lies between zero and the quantity that the order
    /// was for, and the status is the one that goes with it.
    pub open spec fn well_formed(self) -> bool {
        &&& 0 <= self.remaining_quantity <= self.quantity
        &&& self.status == status_for(self.remaining_quantity, self.quantity)
    }

    /// Whether the order may sit in the book: a limit order with something
    /// left to fill, no more than it was for, whose status says so.
    pub open spec fn can_rest(self) -> bool {
        &&& self.order_type == OrderType::Limit
        &&& 0 < self.remaining_quantity <= self.quantity
        &&& self.status == status_for(self.remaining_quantity, self.quantity)
    }

    /// The order after `fill` more of it has traded.
    pub open spec fn filled_by(self, fill: int) -> OrderView {
        let left = self.remaining_quantity - fill;
        OrderView { remaining_quantity: left, status: status_for(left, self.quantity), ..self }
    }

    /// The order after it has been cancelled.
    pub open spec fn cancelled(self) -> OrderView {
        OrderView { status: OrderStatus::Cancelled, ..self }
    }
}

impl Order {
    /// A new, unfilled order stamped with the current time.
    pub fn new(
        id: u64,
        price: Decimal,
        quantity: Decimal,
        side: Side,
        order_type: OrderType,
    ) -> (order: Order)
        ensures
            order == Order::spec_new(id, price, quantity, side, order_type, order.timestamp),
    {
        Order::with_timestamp(id, price, quantity, side, order_type, Timestamp::now())
    }

    /// What [`Order::with_timestamp`] builds.
    pub open spec fn spec_new(
        id: u64,
        price: Decimal,
        quantity: Decimal,
        side: Side,
        order_type: OrderType,
        timestamp: Timestamp,
    ) -> Order {
        Order {
            id,
            price,
            quantity,
            remaining_quantity: quantity,
            side,
            order_type,
            status: OrderStatus::Pending,
            timestamp,
        }
    }

    /// A new, unfilled order submitted at `timestamp`.
    pub fn with_timestamp(
        id: u64,
        price: Decimal,
        quantity: Decimal,
        side: Side,
        order_type: OrderType,
        timestamp: Timestamp,
    ) -> (order: Order)
        ensures
            order == Order::spec_new(id, price, quantity, side, order_type, timestamp),
    {
        Order {
            id,
            price,
            quantity,
            remaining_quantity: quantity,
            side,
            order_type,
            status: OrderStatus::Pending,
            timestamp,
        }
    }

    /// How two orders compare in priority: `Less` means `self` goes first.
    /// The better price goes first, which for `self` a bid is the higher
    /// and for an ask the lower; at one price the earlier order goes
    /// first.
    pub open spec fn precedence(&self, other: &Order) -> Ordering {
        if self.price@ == other.price@ {
            self.timestamp.chronology(&other.timestamp)
        } else if (self.price@ < other.price@) == (self.side == Side::Ask) {
            Ordering::Less
        } else {
            Ordering::Greater
        }
    }

    /// How two orders compare in priority.
    pub fn cmp(&self, other: &Order) -> (r: Ordering)
        ensures
            r == self.precedence(other),
    {
        match self.price.compare(&other.price) {
            Ordering::Equal => self.timestamp.compare(&other.timestamp),
            Ordering::Less => match self.side {
                Side::Bid => Ordering::Greater,
                Side::Ask => Ordering::Less,
            },
            Ordering::Greater => match self.side {
                Side::Bid => Ordering::Less,
                Side::Ask => Ordering::Greater,
            },
        }
    }

    /// The status that goes with the order's remaining quantity.
    pub fn derived_status(&self) -> (status: OrderStatus)
        ensures
            status == status_for(self.remaining_quantity@, self.quantity@),
    {
        if self.remaining_quantity.is_zero() {
            OrderStatus::Filled
        } else if self.remaining_quantity.lt(&self.quantity) {
            OrderStatus::PartiallyFilled
        } else {
            OrderStatus::Pending
        }
    }

    /// Whether the order may sit in the book.
    pub fn is_restable(&self) -> (r: bool)
        ensures
            r == self@.can_rest(),
    {
        let derived = self.derived_status();
        self.order_type == OrderType::Limit && self.remaining_quantity.is_positive()
            && self.remaining_quantity.le(&self.quantity) && self.status == derived
    }
}

impl PartialOrd for Order {
    fn partial_cmp(&self, other: &Order) -> (r: Option<Ordering>) {
        Some(self.cmp(other))
    }
}

impl vstd::std_specs::cmp::PartialOrdSpecImpl for Order {
    open spec fn obeys_partial_cmp_spec() -> bool {
        true
    }

    open spec fn partial_cmp_spec(&self, other: &Order) -> Option<Ordering> {
        Some(self.precedence(other))
    }
}

} // verus!
