//! Websocket helpers for the Lighter exchange: subscriptions, channel names,
//! order-book bookkeeping and the decisions taken on each incoming frame.

pub mod types;
pub mod error;
pub mod decimal;
pub mod channel;
pub mod subscriptions;
pub mod price;
pub mod order_book;
pub mod address;
pub mod client;
pub mod connection;

pub use client::{WsBuilder, WsClient, WsConfig};
pub use connection::{
    AccountEvent, AccountEventEnvelope, CloseFrameInfo, OrderBookEvent, WsConnection, WsEvent,
};
pub use error::{WsClientError, WsResult};
pub use order_book::{OrderBookDelta, OrderBookLevel, OrderBookState};
pub use subscriptions::SubscriptionSet;
pub use types::{AccountId, MarketId};
