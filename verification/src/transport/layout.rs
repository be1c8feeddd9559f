//! The binary layout of a channel's region: a header of four fields, each
//! alone on its cache line, followed by the slots.
//!
//! | offset | field          |
//! |--------|----------------|
//! | 0      | write cursor   |
//! | 64     | read cursor    |
//! | 128    | capacity mask  |
//! | 192    | creation time  |
//! | 256    | slot 0, slot 1, and so on, 48 bytes each |
//!
//! Within a slot: id at 0, instrument at 8, price at 16, quantity at 24,
//! side at 32, order type at 33, timestamp at 40. Every number is stored
//! little-endian.

use crate::decimal::Decimal;
use crate::types::{Order, OrderStatus, OrderType, Side, Timestamp};
use vstd::bytes::{
    lemma_auto_spec_u32_to_from_le_bytes, lemma_auto_spec_u64_to_from_le_bytes,
    spec_u32_from_le_bytes, spec_u64_from_le_bytes, u32_from_le_bytes, u32_to_le_bytes,
    u64_from_le_bytes, u64_to_le_bytes,
};
use vstd::prelude::*;
use vstd::slice::slice_subrange;

verus! {

/// Names an instrument, and with it a channel.
pub type InstrumentId = u32;

/// The size of a cache line: header fields are this far apart.
pub const CACHE_LINE_SIZE: usize = 64;

/// Where the write cursor is stored.
pub const WRITE_CURSOR_OFFSET: usize = 0;

/// Where the read cursor is stored.
pub const READ_CURSOR_OFFSET: usize = 64;

/// Where the capacity mask, the slot count less one, is stored.
pub const CAPACITY_MASK_OFFSET: usize = 128;

/// Where the creation time is stored.
pub const CREATED_AT_OFFSET: usize = 192;

/// The size of the header; the slots start here.
pub const HEADER_SIZE: usize = 256;

/// The size of one slot.
pub const SLOT_SIZE: usize = 48;

/// The most slots a region may have.
pub const MAX_SLOTS: usize = 0x0100_0000;

/// Where in a slot the order id is stored.
pub const ID_OFFSET: usize = 0;

/// Where in a slot the instrument id is stored.
pub const INSTRUMENT_OFFSET: usize = 8;

/// Where in a slot the price is stored.
pub const PRICE_OFFSET: usize = 16;

/// Where in a slot the quantity is stored.
pub const QUANTITY_OFFSET: usize = 24;

/// Where in a slot the side is stored.
pub const SIDE_OFFSET: usize = 32;

/// Where in a slot the order type is stored.
pub const ORDER_TYPE_OFFSET: usize = 33;

/// Where in a slot the timestamp is stored.
pub const TIMESTAMP_OFFSET: usize = 40;

/// The byte that stands for a bid.
pub const SIDE_BID: u8 = 0;

/// The byte that stands for an ask.
pub const SIDE_ASK: u8 = 1;

/// The byte that stands for a limit order.
pub const TYPE_LIMIT: u8 = 0;

/// The byte that stands for a market order.
pub const TYPE_MARKET: u8 = 1;

/// An order as the transport carries it: price and quantity in units of
/// 10^-8, the timestamp in nanoseconds since the Unix epoch.
#[derive(Debug, Clone, Copy, PartialEq, Eq, Structural)]
pub struct OrderRecord {
    pub id: u64,
    pub instrument_id: InstrumentId,
    pub price: u64,
    pub quantity: u64,
    pub side: u8,
    pub order_type: u8,
    pub timestamp: u64,
}

/// How many nanoseconds make a second.
pub const NANOS_PER_SECOND: u64 = 1_000_000_000;

impl OrderRecord {
    /// The side that the record's side byte stands for, if any.
    pub open spec fn side_of(byte: u8) -> Option<Side> {
        if byte == SIDE_BID {
            Some(Side::Bid)
        } else if byte == SIDE_ASK {
            Some(Side::Ask)
        } else {
            None
        }
    }

    /// The order type that the record's type byte stands for, if any.
    pub open spec fn type_of(byte: u8) -> Option<OrderType> {
        if byte == TYPE_LIMIT {
            Some(OrderType::Limit)
        } else if byte == TYPE_MARKET {
            Some(OrderType::Market)
        } else {
            None
        }
    }

    /// Whether `order` can be carried: its price and quantity are not
    /// negative and its timestamp, not before the epoch, counts in
    /// nanoseconds within 64 bits.
    pub open spec fn carries(order: &Order) -> bool {
        &&& order.price@ >= 0
        &&& order.quantity@ >= 0
        &&& order.timestamp.seconds >= 0
        &&& order.timestamp.seconds * NANOS_PER_SECOND + order.timestamp.nanos <= u64::MAX
    }

    /// The record that carries `order` for `instrument_id`: its id, its
    /// price and whole quantity in units of 10^-8, its side and type as
    /// bytes, its timestamp in nanoseconds. `None` where it cannot be
    /// carried.
    pub fn from_order(order: &Order, instrument_id: InstrumentId) -> (record: Option<OrderRecord>)
        ensures
            record is Some <==> OrderRecord::carries(order),
            record matches Some(r) ==> {
                &&& r.id == order.id
                &&& r.instrument_id == instrument_id
                &&& r.price == order.price@
                &&& r.quantity == order.quantity@
                &&& OrderRecord::side_of(r.side) == Some(order.side)
                &&& OrderRecord::type_of(r.order_type) == Some(order.order_type)
                &&& r.timestamp == order.timestamp.seconds * NANOS_PER_SECOND
                    + order.timestamp.nanos
            },
    {
        let price = match order.price.to_units() {
            Some(units) => units,
            None => {
                return None;
            },
        };
        let quantity = match order.quantity.to_units() {
            Some(units) => units,
            None => {
                return None;
            },
        };
        if order.timestamp.seconds < 0 || order.timestamp.seconds > 18_446_744_073 {
            return None;
        }
        let whole: u64 = (order.timestamp.seconds as u64) * NANOS_PER_SECOND;
        let timestamp = match whole.checked_add(order.timestamp.nanos as u64) {
            Some(nanos) => nanos,
            None => {
                return None;
            },
        };
        Some(
            OrderRecord {
                id: order.id,
                instrument_id,
                price,
                quantity,
                side: match order.side {
                    Side::Bid => SIDE_BID,
                    Side::Ask => SIDE_ASK,
                },
                order_type: match order.order_type {
                    OrderType::Limit => TYPE_LIMIT,
                    OrderType::Market => TYPE_MARKET,
                },
                timestamp,
            },
        )
    }

    /// The new, unfilled order that the record carries, or `None` where
    /// its side or type byte stands for nothing.
    pub fn to_order(&self) -> (order: Option<Order>)
        ensures
            order is Some <==> OrderRecord::side_of(self.side) is Some && OrderRecord::type_of(
                self.order_type,
            ) is Some,
            order matches Some(o) ==> {
                &&& o.id == self.id
                &&& o.price@ == self.price
                &&& o.quantity@ == self.quantity
                &&& o.remaining_quantity@ == self.quantity
                &&& Some(o.side) == OrderRecord::side_of(self.side)
                &&& Some(o.order_type) == OrderRecord::type_of(self.order_type)
                &&& o.status == OrderStatus::Pending
                &&& o.timestamp.seconds == self.timestamp / NANOS_PER_SECOND
                &&& o.timestamp.nanos == self.timestamp % NANOS_PER_SECOND
            },
    {
        let side = if self.side == SIDE_BID {
            Side::Bid
        } else if self.side == SIDE_ASK {
            Side::Ask
        } else {
            return None;
        };
        let order_type = if self.order_type == TYPE_LIMIT {
            OrderType::Limit
        } else if self.order_type == TYPE_MARKET {
            OrderType::Market
        } else {
            return None;
        };
        let timestamp = Timestamp {
            seconds: (self.timestamp / NANOS_PER_SECOND) as i64,
            nanos: (self.timestamp % NANOS_PER_SECOND) as u32,
        };
        Some(
            Order::with_timestamp(
                self.id,
                Decimal::from_units(self.price),
                Decimal::from_units(self.quantity),
                side,
                order_type,
                timestamp,
            ),
        )
    }
}

/// The 64-bit number stored at `offset`.
pub open spec fn u64_at(bytes: Seq<u8>, offset: int) -> u64 {
    spec_u64_from_le_bytes(bytes.subrange(offset, offset + 8))
}

/// The 32-bit number stored at `offset`.
pub open spec fn u32_at(bytes: Seq<u8>, offset: int) -> u32 {
    spec_u32_from_le_bytes(bytes.subrange(offset, offset + 4))
}

/// The record stored in the slot that starts at `offset`.
pub open spec fn record_at(bytes: Seq<u8>, offset: int) -> OrderRecord {
    OrderRecord {
        id: u64_at(bytes, offset + ID_OFFSET),
        instrument_id: u32_at(bytes, offset + INSTRUMENT_OFFSET),
        price: u64_at(bytes, offset + PRICE_OFFSET),
        quantity: u64_at(bytes, offset + QUANTITY_OFFSET),
        side: bytes[offset + SIDE_OFFSET],
        order_type: bytes[offset + ORDER_TYPE_OFFSET],
        timestamp: u64_at(bytes, offset + TIMESTAMP_OFFSET),
    }
}

/// Whether `a` and `b` hold the same bytes from `from` up to `to`.
pub open spec fn same_bytes(a: Seq<u8>, b: Seq<u8>, from: int, to: int) -> bool {
    forall|i: int| from <= i < to ==> a[i] == b[i]
}

/// Whether `a` and `b` differ at most from `from` up to `to`.
pub open spec fn same_elsewhere(a: Seq<u8>, b: Seq<u8>, from: int, to: int) -> bool {
    &&& a.len() == b.len()
    &&& forall|i: int| 0 <= i < a.len() && !(from <= i < to) ==> a[i] == b[i]
}

/// Regions that hold the same eight bytes at `offset` hold the same
/// number there.
pub proof fn lemma_u64_at_same(a: Seq<u8>, b: Seq<u8>, offset: int)
    requires
        0 <= offset,
        offset + 8 <= a.len(),
        offset + 8 <= b.len(),
        same_bytes(a, b, offset, offset + 8),
    ensures
        u64_at(a, offset) == u64_at(b, offset),
{
    assert(a.subrange(offset, offset + 8) =~= b.subrange(offset, offset + 8));
}

/// Regions that hold the same four bytes at `offset` hold the same number
/// there.
pub proof fn lemma_u32_at_same(a: Seq<u8>, b: Seq<u8>, offset: int)
    requires
        0 <= offset,
        offset + 4 <= a.len(),
        offset + 4 <= b.len(),
        same_bytes(a, b, offset, offset + 4),
    ensures
        u32_at(a, offset) == u32_at(b, offset),
{
    assert(a.subrange(offset, offset + 4) =~= b.subrange(offset, offset + 4));
}

/// Regions that hold the same bytes in the slot at `offset` hold the same
/// record there.
pub proof fn lemma_record_at_same(a: Seq<u8>, b: Seq<u8>, offset: int)
    requires
        0 <= offset,
        offset + SLOT_SIZE <= a.len(),
        offset + SLOT_SIZE <= b.len(),
        same_bytes(a, b, offset, offset + SLOT_SIZE),
    ensures
        record_at(a, offset) == record_at(b, offset),
{
    lemma_u64_at_same(a, b, offset + ID_OFFSET);
    lemma_u32_at_same(a, b, offset + INSTRUMENT_OFFSET);
    lemma_u64_at_same(a, b, offset + PRICE_OFFSET);
    lemma_u64_at_same(a, b, offset + QUANTITY_OFFSET);
    lemma_u64_at_same(a, b, offset + TIMESTAMP_OFFSET);
}

/// Reads the 64-bit number stored at `offset`.
pub fn get_u64(region: &Vec<u8>, offset: usize) -> (value: u64)
    requires
        offset + 8 <= region.len(),
    ensures
        value == u64_at(region@, offset as int),
{
    u64_from_le_bytes(slice_subrange(region.as_slice(), offset, offset + 8))
}

/// Reads the 32-bit number stored at `offset`.
pub fn get_u32(region: &Vec<u8>, offset: usize) -> (value: u32)
    requires
        offset + 4 <= region.len(),
    ensures
        value == u32_at(region@, offset as int),
{
    u32_from_le_bytes(slice_subrange(region.as_slice(), offset, offset + 4))
}

/// Stores `value` at `offset` and leaves every other byte as it is.
pub fn put_u64(region: &mut Vec<u8>, offset: usize, value: u64)
    requires
        offset + 8 <= old(region).len(),
    ensures
        u64_at(final(region)@, offset as int) == value,
        same_elsewhere(final(region)@, old(region)@, offset as int, offset + 8),
{
    let bytes = u64_to_le_bytes(value);
    let mut k: usize = 0;
    while k < 8
        invariant
            k <= 8,
            bytes@.len() == 8,
            offset + 8 <= region.len(),
            region.len() == old(region).len(),
            forall|i: int| 0 <= i < k ==> region@[offset + i] == bytes@[i],
            forall|i: int|
                0 <= i < region.len() && !(offset <= i < offset + 8) ==> region@[i] == old(
                    region,
                )@[i],
        decreases 8 - k,
    {
        region[offset + k] = bytes[k];
        k += 1;
    }
    proof {
        lemma_auto_spec_u64_to_from_le_bytes();
        assert(region@.subrange(offset as int, offset + 8) =~= bytes@);
    }
}

/// Stores `value` at `offset` and leaves every other byte as it is.
pub fn put_u32(region: &mut Vec<u8>, offset: usize, value: u32)
    requires
        offset + 4 <= old(region).len(),
    ensures
        u32_at(final(region)@, offset as int) == value,
        same_elsewhere(final(region)@, old(region)@, offset as int, offset + 4),
{
    let bytes = u32_to_le_bytes(value);
    let mut k: usize = 0;
    while k < 4
        invariant
            k <= 4,
            bytes@.len() == 4,
            offset + 4 <= region.len(),
            region.len() == old(region).len(),
            forall|i: int| 0 <= i < k ==> region@[offset + i] == bytes@[i],
            forall|i: int|
                0 <= i < region.len() && !(offset <= i < offset + 4) ==> region@[i] == old(
                    region,
                )@[i],
        decreases 4 - k,
    {
        region[offset + k] = bytes[k];
        k += 1;
    }
    proof {
        lemma_auto_spec_u32_to_from_le_bytes();
        assert(region@.subrange(offset as int, offset + 4) =~= bytes@);
    }
}

/// Reads the record stored in the slot that starts at `offset`.
pub fn read_record(region: &Vec<u8>, offset: usize) -> (record: OrderRecord)
    requires
        offset + SLOT_SIZE <= region.len(),
    ensures
        record == record_at(region@, offset as int),
{
    OrderRecord {
        id: get_u64(region, offset + ID_OFFSET),
        instrument_id: get_u32(region, offset + INSTRUMENT_OFFSET),
        price: get_u64(region, offset + PRICE_OFFSET),
        quantity: get_u64(region, offset + QUANTITY_OFFSET),
        side: region[offset + SIDE_OFFSET],
        order_type: region[offset + ORDER_TYPE_OFFSET],
        timestamp: get_u64(region, offset + TIMESTAMP_OFFSET),
    }
}

/// Stores `record` in the slot that starts at `offset` and leaves every
/// byte outside that slot as it is.
pub fn write_record(region: &mut Vec<u8>, offset: usize, record: &OrderRecord)
    requires
        offset + SLOT_SIZE <= old(region).len(),
    ensures
        record_at(final(region)@, offset as int) == *record,
        same_elsewhere(final(region)@, old(region)@, offset as int, offset + SLOT_SIZE),
{
    put_u64(region, offset + ID_OFFSET, record.id);
    let ghost with_id = region@;
    put_u32(region, offset + INSTRUMENT_OFFSET, record.instrument_id);
    let ghost with_instrument = region@;
    put_u64(region, offset + PRICE_OFFSET, record.price);
    let ghost with_price = region@;
    put_u64(region, offset + QUANTITY_OFFSET, record.quantity);
    let ghost with_quantity = region@;
    region[offset + SIDE_OFFSET] = record.side;
    region[offset + ORDER_TYPE_OFFSET] = record.order_type;
    put_u64(region, offset + TIMESTAMP_OFFSET, record.timestamp);
    proof {
        lemma_u64_at_same(with_id, region@, offset + ID_OFFSET);
        lemma_u32_at_same(with_instrument, region@, offset + INSTRUMENT_OFFSET);
        lemma_u64_at_same(with_price, region@, offset + PRICE_OFFSET);
        lemma_u64_at_same(with_quantity, region@, offset + QUANTITY_OFFSET);
    }
}

} // verus!
