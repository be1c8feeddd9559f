//! Executed trades and the append-only ledger that keeps them.

use crate::decimal::Decimal;
use crate::types::{Side, Timestamp};
use std::collections::VecDeque;
use vstd::prelude::*;

verus! {

/// What a trade settles, apart from the instant at which it was recorded.
/// Price and quantity are whole numbers of 10^-8 units.
pub struct Fill {
    pub maker_order_id: u64,
    pub taker_order_id: u64,
    pub price: int,
    pub quantity: int,
    pub side: Side,
}

/// One execution: a resting order (the maker) matched by an incoming order
/// (the taker) at the maker's price.
#[derive(Debug, Clone, Copy, PartialEq, Eq)]
pub struct Trade {
    pub maker_order_id: u64,
    pub taker_order_id: u64,
    pub price: Decimal,
    pub quantity: Decimal,
    pub side: Side,
    pub timestamp: Timestamp,
}

impl Trade {
    /// The trade without its timestamp.
    pub open spec fn fill(&self) -> Fill {
        Fill {
            maker_order_id: self.maker_order_id,
            taker_order_id: self.taker_order_id,
            price: self.price@,
            quantity: self.quantity@,
            side: self.side,
        }
    }

    /// A trade stamped with the current time. `side` is the taker's side.
    pub fn new(
        maker_order_id: u64,
        taker_order_id: u64,
        price: Decimal,
        quantity: Decimal,
        side: Side,
    ) -> (trade: Trade)
        ensures
            trade == (Trade {
                maker_order_id,
                taker_order_id,
                price,
                quantity,
                side,
                timestamp: trade.timestamp,
            }),
    {
        Trade { maker_order_id, taker_order_id, price, quantity, side, timestamp: Timestamp::now() }
    }
}

/// The fills of a sequence of trades, in the same order.
pub open spec fn fills_of(trades: Seq<Trade>) -> Seq<Fill> {
    Seq::new(trades.len(), |i: int| trades[i].fill())
}

/// The newest `limit` trades of a chronological ledger, newest first.
pub open spec fn newest_first(trades: Seq<Trade>, limit: nat) -> Seq<Trade> {
    Seq::new(
        if limit < trades.len() {
            limit
        } else {
            trades.len()
        },
        |i: int| trades[trades.len() - 1 - i],
    )
}

/// The ledger of executed trades, in the order in which they were recorded.
pub struct TxnHistory {
    trades: VecDeque<Trade>,
}

impl View for TxnHistory {
    type V = Seq<Trade>;

    /// The recorded trades, oldest first.
    closed spec fn view(&self) -> Seq<Trade> {
        self.trades@
    }
}

impl TxnHistory {
    /// An empty ledger.
    pub fn new() -> (history: TxnHistory)
        ensures
            history@ == Seq::<Trade>::empty(),
    {
        TxnHistory { trades: VecDeque::with_capacity(1024) }
    }

    /// Appends `trade` as the newest entry.
    pub fn add_trade(&mut self, trade: Trade)
        ensures
            final(self)@ == old(self)@.push(trade),
    {
        self.trades.push_back(trade);
    }

    /// Appends a batch of trades in one step, keeping their order.
    pub fn add_trades(&mut self, batch: &Vec<Trade>)
        ensures
            final(self)@ == old(self)@ + batch@,
    {
        let mut i: usize = 0;
        while i < batch.len()
            invariant
                i <= batch.len(),
                self@ == old(self)@ + batch@.take(i as int),
            decreases batch.len() - i,
        {
            self.trades.push_back(batch[i]);
            i += 1;
            assert(batch@.take(i as int) == batch@.take(i - 1).push(batch@[i - 1]));
        }
        assert(batch@.take(i as int) == batch@);
    }

    /// How many trades the ledger holds.
    pub fn len(&self) -> (n: usize)
        ensures
            n == self@.len(),
    {
        self.trades.len()
    }

    /// Every recorded trade, oldest first.
    pub fn get_trades(&self) -> (trades: Vec<Trade>)
        ensures
            trades@ == self@,
    {
        let mut out: Vec<Trade> = Vec::new();
        let mut i: usize = 0;
        while i < self.trades.len()
            invariant
                i <= self.trades@.len(),
                out@ == self.trades@.take(i as int),
            decreases self.trades@.len() - i,
        {
            out.push(self.trades[i]);
            i += 1;
        }
        assert(self.trades@.take(i as int) == self.trades@);
        out
    }

    /// The newest `limit` trades, newest first; all of them where the ledger
    /// holds fewer.
    pub fn get_recent_trades(&self, limit: usize) -> (trades: Vec<Trade>)
        ensures
            trades@ == newest_first(self@, limit as nat),
    {
        let total: usize = self.trades.len();
        let count: usize = if limit < total {
            limit
        } else {
            total
        };
        let mut out: Vec<Trade> = Vec::new();
        let mut i: usize = 0;
        while i < count
            invariant
                i <= count <= total,
                total == self.trades@.len(),
                out@.len() == i,
                forall|k: int| 0 <= k < i ==> out@[k] == self.trades@[total - 1 - k],
            decreases count - i,
        {
            out.push(self.trades[total - 1 - i]);
            i += 1;
        }
        assert(out@ =~= newest_first(self@, limit as nat));
        out
    }
}

} // verus!
