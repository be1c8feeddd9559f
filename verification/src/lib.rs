//! Transactional core of a small exchange: a price-time priority limit order
//! book, the matching engine that drives it, the trade ledger it fills, and the
//! ring-buffer protocol that carries orders into the engine.

pub mod decimal;
pub mod laws;
pub mod lemmas;
pub mod matchingengine;
pub mod model;
pub mod nif;
pub mod orderbook;
pub mod service;
pub mod trade_history;
pub mod transport;
pub mod types;

pub use decimal::{Decimal, DecimalError};
pub use matchingengine::MatchingEngine;
pub use nif::{NifError, NifOrder};
pub use orderbook::{BookError, OrderBook};
pub use service::{
    OrderBookLevel, OrderBookResponse, OrderBookService, OrderRequest, OrderResponse, ServiceError,
    TradeHistoryResponse, TradeResponse,
};
pub use trade_history::{Trade, TxnHistory};
pub use transport::inq::{InstrumentQueue, TransportError};
pub use transport::layout::{InstrumentId, OrderRecord};
pub use types::{Order, OrderStatus, OrderType, Side, Timestamp};
