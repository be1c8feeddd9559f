//! Orders in the all-text form in which a host runtime hands them over:
//! amounts as decimal text, sides, types and statuses by name.

use crate::decimal::{parse_fits, parsed_decimal, parsed_value, renders, Decimal};
use crate::matchingengine::MatchingEngine;
use crate::model::{depth_view, totals_fit};
use crate::types::{Order, OrderStatus, OrderType, Side, Timestamp};
use vstd::prelude::*;

verus! {

/// An order in text form.
#[derive(Debug, Clone, PartialEq, Eq)]
pub struct NifOrder {
    pub id: u64,
    pub price: String,
    pub quantity: String,
    pub remaining_quantity: String,
    pub side: String,
    pub order_type: String,
    pub status: String,
}

/// Why an order in text form was turned down.
#[derive(Debug, Clone, Copy, PartialEq, Eq, Structural)]
pub enum NifError {
    /// A field of the order cannot be read.
    BadArg,
    /// The total of a price level is more than the largest amount that can
    /// be held.
    TotalTooLarge,
}

/// The name of a side.
pub open spec fn side_name(side: Side) -> Seq<char> {
    match side {
        Side::Bid => "bid"@,
        Side::Ask => "ask"@,
    }
}

/// The name of an order type.
pub open spec fn kind_name(order_type: OrderType) -> Seq<char> {
    match order_type {
        OrderType::Limit => "limit"@,
        OrderType::Market => "market"@,
    }
}

/// The name of a status.
pub open spec fn status_name(status: OrderStatus) -> Seq<char> {
    match status {
        OrderStatus::Pending => "pending"@,
        OrderStatus::PartiallyFilled => "partially_filled"@,
        OrderStatus::Filled => "filled"@,
        OrderStatus::Cancelled => "cancelled"@,
    }
}

/// The side that a name stands for, if any.
pub open spec fn side_named(name: Seq<char>) -> Option<Side> {
    if name == "bid"@ {
        Some(Side::Bid)
    } else if name == "ask"@ {
        Some(Side::Ask)
    } else {
        None
    }
}

/// The order type that a name stands for, if any.
pub open spec fn kind_named(name: Seq<char>) -> Option<OrderType> {
    if name == "limit"@ {
        Some(OrderType::Limit)
    } else if name == "market"@ {
        Some(OrderType::Market)
    } else {
        None
    }
}

/// Whether `text` reads `literal`.
fn reads(text: &String, literal: &str) -> (r: bool)
    ensures
        r == (text@ == literal@),
{
    let wanted = literal.to_owned();
    *text == wanted
}

/// Whether every field of `order` can be read.
pub open spec fn readable(order: &NifOrder) -> bool {
    &&& parse_fits(parsed_decimal(order.price@))
    &&& parse_fits(parsed_decimal(order.quantity@))
    &&& side_named(order.side@) is Some
    &&& kind_named(order.order_type@) is Some
}

impl NifOrder {
    /// Whether `self` is `order` in text form.
    pub open spec fn shows(&self, order: &Order) -> bool {
        &&& order.price.valid() && order.quantity.valid() && order.remaining_quantity.valid()
        &&& self.id == order.id
        &&& self.price@ == order.price.text()
        &&& self.quantity@ == order.quantity.text()
        &&& self.remaining_quantity@ == order.remaining_quantity.text()
        &&& self.side@ == side_name(order.side)
        &&& self.order_type@ == kind_name(order.order_type)
        &&& self.status@ == status_name(order.status)
    }

    /// `order` in text form.
    pub fn from_order(order: Order) -> (text: NifOrder)
        ensures
            text.shows(&order),
    {
        NifOrder {
            id: order.id,
            price: order.price.to_string(),
            quantity: order.quantity.to_string(),
            remaining_quantity: order.remaining_quantity.to_string(),
            side: match order.side {
                Side::Bid => "bid".to_owned(),
                Side::Ask => "ask".to_owned(),
            },
            order_type: match order.order_type {
                OrderType::Limit => "limit".to_owned(),
                OrderType::Market => "market".to_owned(),
            },
            status: match order.status {
                OrderStatus::Pending => "pending".to_owned(),
                OrderStatus::PartiallyFilled => "partially_filled".to_owned(),
                OrderStatus::Filled => "filled".to_owned(),
                OrderStatus::Cancelled => "cancelled".to_owned(),
            },
        }
    }

    /// The new, unfilled order that `self` asks for, to be submitted at
    /// `timestamp`: its id, price, quantity, side and type are read; what
    /// it says of remaining quantity and status is not.
    pub fn to_order(&self, timestamp: Timestamp) -> (order: Result<Order, NifError>)
        ensures
            order is Ok <==> readable(self),
            order matches Ok(o) ==> {
                &&& o.id == self.id
                &&& o.price@ == parsed_value(parsed_decimal(self.price@))
                &&& o.quantity@ == parsed_value(parsed_decimal(self.quantity@))
                &&& o.remaining_quantity == o.quantity
                &&& Some(o.side) == side_named(self.side@)
                &&& Some(o.order_type) == kind_named(self.order_type@)
                &&& o.status == OrderStatus::Pending
                &&& o.timestamp == timestamp
            },
            order matches Err(e) ==> e == NifError::BadArg,
    {
        let price = match Decimal::from_str(self.price.as_str()) {
            Ok(d) => d,
            Err(_) => {
                return Err(NifError::BadArg);
            },
        };
        let quantity = match Decimal::from_str(self.quantity.as_str()) {
            Ok(d) => d,
            Err(_) => {
                return Err(NifError::BadArg);
            },
        };
        let side = if reads(&self.side, "bid") {
            Side::Bid
        } else if reads(&self.side, "ask") {
            Side::Ask
        } else {
            return Err(NifError::BadArg);
        };
        let order_type = if reads(&self.order_type, "limit") {
            OrderType::Limit
        } else if reads(&self.order_type, "market") {
            OrderType::Market
        } else {
            return Err(NifError::BadArg);
        };
        Ok(Order::with_timestamp(self.id, price, quantity, side, order_type, timestamp))
    }
}

impl From<Order> for NifOrder {
    /// `order` in text form.
    fn from(order: Order) -> (text: NifOrder)
        ensures
            text.shows(&order),
    {
        NifOrder::from_order(order)
    }
}

impl vstd::std_specs::convert::FromSpecImpl<Order> for NifOrder {
    open spec fn obeys_from_spec() -> bool {
        false
    }

    open spec fn from_spec(order: Order) -> NifOrder {
        choose|text: NifOrder| text.shows(&order)
    }
}

/// Places the order that `order` asks for, stamped with the current time,
/// and hands it back in text form as placing left it. An order with a
/// field that cannot be read is turned down and changes nothing.
pub fn place_order(book: &mut MatchingEngine, order: &NifOrder) -> (placed: Result<
    NifOrder,
    NifError,
>)
    requires
        old(book).wf(),
    ensures
        final(book).wf(),
        placed is Ok <==> readable(order),
        match placed {
            Ok(text) => exists|asked: Order, answer: Order|
                {
                    &&& asked.id == order.id
                    &&& asked.price@ == parsed_value(parsed_decimal(order.price@))
                    &&& asked.quantity@ == parsed_value(parsed_decimal(order.quantity@))
                    &&& asked.remaining_quantity == asked.quantity
                    &&& Some(asked.side) == side_named(order.side@)
                    &&& Some(asked.order_type) == kind_named(order.order_type@)
                    &&& asked.status == OrderStatus::Pending
                    &&& #[trigger] final(book).answers(old(book), asked, answer)
                    &&& text.shows(&answer)
                },
            Err(e) => e == NifError::BadArg && *final(book) == *old(book),
        },
{
    let asked = match order.to_order(Timestamp::now()) {
        Ok(o) => o,
        Err(e) => {
            return Err(e);
        },
    };
    let answer = book.place_order(asked);
    let text = NifOrder::from_order(answer);
    let placed: Result<NifOrder, NifError> = Ok(text);
    proof {
        assert(book.answers(old(book), asked, answer));
        assert(placed->Ok_0.shows(&answer));
    }
    placed
}

/// Writes the rows of one side of a snapshot out as pairs of price and
/// total.
pub fn rows_text(rows: &Vec<(Decimal, Decimal)>) -> (pairs: Vec<(String, String)>)
    ensures
        pairs@.len() == rows@.len(),
        forall|i: int|
            0 <= i < rows@.len() ==> (#[trigger] pairs@[i]).0@ == rows@[i].0.text() && pairs@[i].1@
                == rows@[i].1.text() && renders(rows@[i].0@, pairs@[i].0@) && renders(
                rows@[i].1@,
                pairs@[i].1@,
            ),
{
    let mut pairs: Vec<(String, String)> = Vec::new();
    let mut i: usize = 0;
    while i < rows.len()
        invariant
            i <= rows@.len(),
            pairs@.len() == i,
            forall|j: int|
                0 <= j < i ==> (#[trigger] pairs@[j]).0@ == rows@[j].0.text() && pairs@[j].1@
                    == rows@[j].1.text() && renders(rows@[j].0@, pairs@[j].0@) && renders(
                    rows@[j].1@,
                    pairs@[j].1@,
                ),
        decreases rows@.len() - i,
    {
        let price = rows[i].0.to_string();
        let total = rows[i].1.to_string();
        pairs.push((price, total));
        i += 1;
    }
    pairs
}

/// Whether `pairs` writes out the rows `rows` of a snapshot.
pub open spec fn writes_rows(pairs: Seq<(String, String)>, rows: Seq<(int, int)>) -> bool {
    &&& pairs.len() == rows.len()
    &&& forall|i: int|
        0 <= i < pairs.len() ==> renders(rows[i].0, (#[trigger] pairs[i]).0@) && renders(
            rows[i].1,
            pairs[i].1@,
        )
}

/// The book to a depth of `depth` levels, prices and totals as text;
/// `TotalTooLarge` where the total of one of those levels is more than the
/// largest amount that can be held.
pub fn get_order_book(book: &MatchingEngine, depth: usize) -> (rows: Result<
    (Vec<(String, String)>, Vec<(String, String)>),
    NifError,
>)
    requires
        book.wf(),
    ensures
        rows is Ok <==> totals_fit(book.book().levels(Side::Bid), depth as nat) && totals_fit(
            book.book().levels(Side::Ask),
            depth as nat,
        ),
        rows matches Ok(r) ==> writes_rows(
            r.0@,
            depth_view(book.book().levels(Side::Bid), depth as nat),
        ) && writes_rows(r.1@, depth_view(book.book().levels(Side::Ask), depth as nat)),
        rows matches Err(e) ==> e == NifError::TotalTooLarge,
{
    let snapshot = match book.get_order_book(depth) {
        Ok(snapshot) => snapshot,
        Err(_) => {
            return Err(NifError::TotalTooLarge);
        },
    };
    let bids = rows_text(&snapshot.0);
    let asks = rows_text(&snapshot.1);
    proof {
        let bid_rows = snapshot.0@.map_values(|row: (Decimal, Decimal)| (row.0@, row.1@));
        let ask_rows = snapshot.1@.map_values(|row: (Decimal, Decimal)| (row.0@, row.1@));
        assert forall|i: int| 0 <= i < bids@.len() implies renders(
            bid_rows[i].0,
            (#[trigger] bids@[i]).0@,
        ) && renders(bid_rows[i].1, bids@[i].1@) by {}
        assert forall|i: int| 0 <= i < asks@.len() implies renders(
            ask_rows[i].0,
            (#[trigger] asks@[i]).0@,
        ) && renders(ask_rows[i].1, asks@[i].1@) by {}
    }
    Ok((bids, asks))
}

/// The record kept under `order_id`, in text form, if the id is known.
pub fn get_order_status(book: &MatchingEngine, order_id: u64) -> (text: Option<NifOrder>)
    ensures
        text is Some <==> book.book().index().contains_key(order_id),
        text matches Some(t) ==> exists|order: Order|
            #[trigger] t.shows(&order) && order@ == book.book().index()[order_id],
{
    match book.get_order_status(order_id) {
        Some(order) => {
            let text: Option<NifOrder> = Some(NifOrder::from_order(*order));
            proof {
                assert(text->Some_0.shows(order));
            }
            text
        },
        None => None,
    }
}

} // verus!
