use std::collections::HashMap;

use vstd::prelude::*;
use vstd::utf8::{decode_utf8, valid_utf8};

use crate::address::text_equals;
use crate::channel::{
    lemma_account_channel_roundtrip, lemma_order_book_channel_roundtrip, account_channel, account_channel_name, channel_account, channel_market, order_book_channel,
    order_book_channel_name, parse_account_index, parse_market_id,
};
use crate::error::{ErrorView, WsClientError, WsResult};
use crate::order_book::{
    book_after_delta, fields_view, text_option_view, BookView, OrderBookDelta, OrderBookEnvelope,
    OrderBookState,
};
use crate::subscriptions::SubscriptionSet;
use crate::types::{AccountId, MarketId};

verus! {

broadcast use vstd::std_specs::hash::group_hash_axioms;

/// The status code and reason of a close frame.
#[derive(Debug)]
pub struct CloseFrameInfo {
    pub code: u16,
    pub reason: String,
}

impl Clone for CloseFrameInfo {
    fn clone(&self) -> (r: Self)
        ensures
            r == *self,
    {
        CloseFrameInfo { code: self.code, reason: self.reason.clone() }
    }
}

/// An account message, without its `type` field, as JSON text.
#[derive(Debug)]
pub struct AccountEvent(String);

impl View for AccountEvent {
    type V = Seq<char>;

    closed spec fn view(&self) -> Seq<char> {
        self.0@
    }
}

impl AccountEvent {
    pub fn new(value: String) -> (e: AccountEvent)
        ensures
            e@ == value@,
    {
        AccountEvent(value)
    }

    pub fn into_inner(self) -> (value: String)
        ensures
            value@ == self@,
    {
        self.0
    }

    pub fn as_value(&self) -> (value: &str)
        ensures
            value@ == self@,
    {
        self.0.as_str()
    }
}

impl Clone for AccountEvent {
    fn clone(&self) -> (r: Self)
        ensures
            r@ == self@,
    {
        AccountEvent(self.0.clone())
    }
}

/// An account message together with the account it concerns; `snapshot`
/// tells a subscription's first message from a later update.
#[derive(Debug)]
pub struct AccountEventEnvelope {
    pub account: AccountId,
    pub snapshot: bool,
    pub event: AccountEvent,
}

/// A market's order book after a message, and the delta when the message was an update.
#[derive(Debug)]
pub struct OrderBookEvent {
    pub market: MarketId,
    pub state: OrderBookState,
    pub delta: Option<OrderBookDelta>,
}

/// What a websocket connection reports.
#[derive(Debug)]
pub enum WsEvent {
    Connected,
    Pong,
    OrderBook(OrderBookEvent),
    Account(AccountEventEnvelope),
    Closed(Option<CloseFrameInfo>),
    Unknown(String),
}

/// An event as plain values.
pub enum EventView {
    Connected,
    Pong,
    OrderBook { market: MarketId, state: BookView, delta: Option<BookView> },
    Account { account: AccountId, snapshot: bool, event: Seq<char> },
    Closed(Option<(u16, Seq<char>)>),
    Unknown(Seq<char>),
}

impl View for WsEvent {
    type V = EventView;

    open spec fn view(&self) -> EventView {
        match self {
            WsEvent::Connected => EventView::Connected,
            WsEvent::Pong => EventView::Pong,
            WsEvent::OrderBook(e) => EventView::OrderBook {
                market: e.market,
                state: e.state@,
                delta: match e.delta {
                    Some(d) => Some(d@),
                    None => None,
                },
            },
            WsEvent::Account(e) => EventView::Account {
                account: e.account,
                snapshot: e.snapshot,
                event: e.event@,
            },
            WsEvent::Closed(info) => EventView::Closed(
                match info {
                    Some(i) => Some((i.code, i.reason@)),
                    None => None,
                },
            ),
            WsEvent::Unknown(t) => EventView::Unknown(t@),
        }
    }
}

/// A frame read from the socket.
#[derive(Debug)]
pub enum Frame {
    Text(String),
    Binary(Vec<u8>),
    Ping(Vec<u8>),
    Pong(Vec<u8>),
    Close(Option<CloseFrameInfo>),
    /// A raw frame, which carries no message.
    Raw,
}

/// What to do with a frame.
#[derive(Debug)]
pub enum FrameStep {
    /// Decode this text as a JSON message and hand it to the connection.
    Text(String),
    /// Answer with a pong carrying this payload, then read on.
    Reply(Vec<u8>),
    /// Report this event.
    Emit(WsEvent),
    /// Read on.
    Skip,
    /// Report this error.
    Fail(WsClientError),
}

/// A text message that reads as JSON, with the fields that the connection reads.
///
/// `message_type` and `channel` are the message's `type` and `channel`
/// fields when they are strings; `order_book` is the message read as an
/// order-book envelope, or the JSON error that reading raised.
struct InboundText {
    pub text: String,
    pub message_type: Option<String>,
    pub channel: Option<String>,
    pub order_book: Result<OrderBookEnvelope, String>,
}

/// A decoded text message as plain values.
pub struct InboundView {
    pub text: Seq<char>,
    pub message_type: Option<Seq<char>>,
    pub channel: Option<Seq<char>>,
    pub order_book: Result<(Seq<char>, BookView), Seq<char>>,
    pub account_payload: Seq<char>,
}

impl View for InboundText {
    type V = InboundView;

    closed spec fn view(&self) -> InboundView {
        InboundView {
            text: self.text@,
            message_type: match self.message_type {
                Some(t) => Some(t@),
                None => None,
            },
            channel: match self.channel {
                Some(c) => Some(c@),
                None => None,
            },
            order_book: match self.order_book {
                Ok(e) => Ok((e.channel@, e.order_book@)),
                Err(m) => Err(m@),
            },
            account_payload: account_payload(self.text@),
        }
    }
}

/// The answer to a text message: texts to send first, then the event to report.
#[derive(Debug)]
pub struct Reply {
    pub outgoing: Vec<String>,
    pub event: WsEvent,
}

/// The views of a sequence of texts.
pub open spec fn texts_view(texts: Seq<String>) -> Seq<Seq<char>> {
    texts.map_values(|t: String| t@)
}

/// The outcome of handling a text message, as plain values.
pub open spec fn reply_view(r: WsResult<Reply>) -> Result<(Seq<Seq<char>>, EventView), ErrorView> {
    match r {
        Ok(reply) => Ok((texts_view(reply.outgoing@), reply.event@)),
        Err(e) => Err(e@),
    }
}

/// The message that subscribes to a channel.
pub open spec fn subscribe_text(channel: Seq<char>) -> Seq<char> {
    json_object_text(seq![("type"@, "subscribe"@), ("channel"@, channel)])
}

/// What `serde_json` writes for a JSON object whose fields are these names
/// with these string values.
pub uninterp spec fn json_object_text(fields: Seq<(Seq<char>, Seq<char>)>) -> Seq<char>;

/// Builds a `serde_json::Value` object from the names and string values
/// (collecting them into a `serde_json::Map`) and writes it with
/// `Value::to_string`. The contract names the text.
#[verifier::external_body]
fn write_json_object(fields: Vec<(String, String)>) -> (text: String)
    ensures
        text@ == json_object_text(fields_view(fields@)),
{
    let object: serde_json::Map<String, serde_json::Value> = fields
        .into_iter()
        .map(|(name, value)| (name, serde_json::Value::String(value)))
        .collect();
    serde_json::Value::Object(object).to_string()
}

/// The subscription messages for a set of markets and accounts: the order
/// books first, then the accounts, each in order.
pub open spec fn subscription_texts(order_books: Seq<MarketId>, accounts: Seq<AccountId>) -> Seq<
    Seq<char>,
> {
    order_books.map_values(|m: MarketId| subscribe_text(order_book_channel_name(m.0)))
        + accounts.map_values(|a: AccountId| subscribe_text(account_channel_name(a.0)))
}

/// A connection's state as plain values: its URL, its subscriptions, the
/// order book of each market and the last event of each account.
pub struct ConnectionView {
    pub url: Seq<char>,
    pub order_books: Seq<MarketId>,
    pub accounts: Seq<AccountId>,
    pub books: Map<i32, BookView>,
    pub account_events: Map<i64, Seq<char>>,
    pub reconnect_attempts: u32,
}

/// The book of a market after an update: the update merged into the
/// market's book, or into a book made of the update when the market has none.
pub open spec fn book_after_update(books: Map<i32, BookView>, market: i32, delta: BookView) -> BookView {
    let prior = if books.contains_key(market) {
        books[market]
    } else {
        delta
    };
    book_after_delta(prior, delta)
}

/// Handling a text message: its result, and the connection state after it.
pub open spec fn text_outcome(conn: ConnectionView, msg: InboundView) -> (
    Result<(Seq<Seq<char>>, EventView), ErrorView>,
    ConnectionView,
) {
    match msg.message_type {
        None => (Err(ErrorView::MissingMessageType), conn),
        Some(t) => if t == "connected"@ {
            (
                Ok((subscription_texts(conn.order_books, conn.accounts), EventView::Connected)),
                ConnectionView { reconnect_attempts: 0, ..conn },
            )
        } else if t == "subscribed/order_book"@ || t == "update/order_book"@ {
            match msg.order_book {
                Err(e) => (Err(ErrorView::Json(e)), conn),
                Ok((channel, book)) => match channel_market(channel) {
                    None => (Err(ErrorView::InvalidChannel(channel)), conn),
                    Some(m) => if t == "subscribed/order_book"@ {
                        (
                            Ok(
                                (
                                    Seq::empty(),
                                    EventView::OrderBook {
                                        market: MarketId(m),
                                        state: book,
                                        delta: None,
                                    },
                                ),
                            ),
                            ConnectionView { books: conn.books.insert(m, book), ..conn },
                        )
                    } else {
                        let after = book_after_update(conn.books, m, book);
                        (
                            Ok(
                                (
                                    Seq::empty(),
                                    EventView::OrderBook {
                                        market: MarketId(m),
                                        state: after,
                                        delta: Some(book),
                                    },
                                ),
                            ),
                            ConnectionView { books: conn.books.insert(m, after), ..conn },
                        )
                    },
                },
            }
        } else if t == "subscribed/account_all"@ || t == "update/account_all"@ {
            match msg.channel {
                None => (Err(ErrorView::InvalidChannel("missing channel"@)), conn),
                Some(c) => match channel_account(c) {
                    None => (Err(ErrorView::InvalidChannel(c)), conn),
                    Some(a) => (
                        Ok(
                            (
                                Seq::empty(),
                                EventView::Account {
                                    account: AccountId(a),
                                    snapshot: t == "subscribed/account_all"@,
                                    event: msg.account_payload,
                                },
                            ),
                        ),
                        ConnectionView {
                            account_events: conn.account_events.insert(a, msg.account_payload),
                            ..conn
                        },
                    ),
                },
            }
        } else {
            (Ok((Seq::empty(), EventView::Unknown(msg.text))), conn)
        },
    }
}

/// What `String::from_utf8` makes of the bytes: the decoded text exactly
/// when they are well-formed UTF-8 (as vstd's `valid_utf8` states it).
#[verifier::external_body]
fn utf8_to_string(bytes: Vec<u8>) -> (r: Option<String>)
    ensures
        r is Some <==> valid_utf8(bytes@),
        r matches Some(s) ==> s@ == decode_utf8(bytes@),
{
    String::from_utf8(bytes).ok()
}

/// The text is a JSON value, as `serde_json::from_str` reads it.
pub uninterp spec fn json_value_ok(text: Seq<char>) -> bool;

/// The field `key` of the JSON value that a text holds, when that value is
/// an object whose field `key` is a string.
pub uninterp spec fn json_string_field_of(text: Seq<char>, key: Seq<char>) -> Option<Seq<char>>;

/// The JSON value that a text holds, without its field `key` when it is an
/// object, written back by `serde_json`.
pub uninterp spec fn json_text_without(text: Seq<char>, key: Seq<char>) -> Seq<char>;

/// Reads the text with `serde_json::from_str` into a `serde_json::Value` and
/// takes its field `key` with `Value::get` and `Value::as_str`. The contract
/// says when the text reads as JSON and names the field; the text of the
/// JSON error is left unsaid.
#[verifier::external_body]
fn json_string_field(text: &str, key: &str) -> (r: Result<Option<String>, String>)
    ensures
        r is Ok <==> json_value_ok(text@),
        r matches Ok(f) ==> text_option_view(f) == json_string_field_of(text@, key@),
{
    match serde_json::from_str::<serde_json::Value>(text) {
        Ok(value) => Ok(value.get(key).and_then(serde_json::Value::as_str).map(String::from)),
        Err(err) => Err(err.to_string()),
    }
}

/// Reads the text with `serde_json::from_str` (which the precondition says
/// succeeds), removes the field `key` with `Map::remove` when the value is an
/// object, and writes the value back with `Value::to_string`. The contract
/// names the text.
#[verifier::external_body]
fn json_without_field(text: &str, key: &str) -> (r: String)
    requires
        json_value_ok(text@),
    ensures
        r@ == json_text_without(text@, key@),
{
    let mut value: serde_json::Value = serde_json::from_str(text).unwrap();
    if let serde_json::Value::Object(object) = &mut value {
        object.remove(key);
    }
    value.to_string()
}

/// An account message is kept without its `type` field.
pub open spec fn account_payload(text: Seq<char>) -> Seq<char> {
    json_text_without(text, "type"@)
}

/// The message that a JSON text holds.
pub open spec fn inbound_view(
    text: Seq<char>,
    order_book: Result<(Seq<char>, BookView), Seq<char>>,
) -> InboundView {
    InboundView {
        text,
        message_type: json_string_field_of(text, "type"@),
        channel: json_string_field_of(text, "channel"@),
        order_book,
        account_payload: account_payload(text),
    }
}

/// The view of an order-book envelope read from a message, or of the error.
pub open spec fn envelope_view(order_book: Result<OrderBookEnvelope, String>) -> Result<(Seq<char>, BookView), Seq<char>> {
    match order_book {
        Ok(e) => Ok((e.channel@, e.order_book@)),
        Err(m) => Err(m@),
    }
}

struct WsState {
    order_books: HashMap<i32, OrderBookState>,
    accounts: HashMap<i64, AccountEvent>,
}

/// The state of an open websocket connection: its URL, its subscriptions,
/// and what the messages received so far say of each market and account.
pub struct WsConnection {
    url: String,
    subscriptions: SubscriptionSet,
    state: WsState,
    reconnect_attempts: u32,
}

impl View for WsConnection {
    type V = ConnectionView;

    closed spec fn view(&self) -> ConnectionView {
        ConnectionView {
            url: self.url@,
            order_books: self.subscriptions.order_books@,
            accounts: self.subscriptions.accounts@,
            books: self.state.order_books@.map_values(|s: OrderBookState| s@),
            account_events: self.state.accounts@.map_values(|e: AccountEvent| e@),
            reconnect_attempts: self.reconnect_attempts,
        }
    }
}

impl WsConnection {
    /// A connection that has received nothing yet.
    pub fn new(url: String, subscriptions: SubscriptionSet) -> (c: WsConnection)
        ensures
            c@.url == url@,
            c@.order_books == subscriptions.order_books@,
            c@.accounts == subscriptions.accounts@,
            c@.books == Map::<i32, BookView>::empty(),
            c@.account_events == Map::<i64, Seq<char>>::empty(),
            c@.reconnect_attempts == 0,
    {
        let c = WsConnection {
            url,
            subscriptions,
            state: WsState { order_books: HashMap::new(), accounts: HashMap::new() },
            reconnect_attempts: 0,
        };
        proof {
            assert(c@.books =~= Map::<i32, BookView>::empty());
            assert(c@.account_events =~= Map::<i64, Seq<char>>::empty());
        }
        c
    }

    pub fn url(&self) -> (u: &str)
        ensures
            u@ == self@.url,
    {
        self.url.as_str()
    }

    pub fn subscriptions(&self) -> (s: &SubscriptionSet)
        ensures
            s.order_books@ == self@.order_books,
            s.accounts@ == self@.accounts,
    {
        &self.subscriptions
    }

    /// The order book of a market, as the messages received so far left it.
    pub fn order_book_state(&self, market: MarketId) -> (s: Option<&OrderBookState>)
        ensures
            match s {
                Some(book) => self@.books.contains_key(market.0) && book@ == self@.books[market.0],
                None => !self@.books.contains_key(market.0),
            },
    {
        self.state.order_books.get(&market.0)
    }

    /// The last event received for an account.
    pub fn account_state(&self, account: AccountId) -> (e: Option<&AccountEvent>)
        ensures
            match e {
                Some(event) => self@.account_events.contains_key(account.0) && event@
                    == self@.account_events[account.0],
                None => !self@.account_events.contains_key(account.0),
            },
    {
        self.state.accounts.get(&account.0)
    }

    /// The messages that subscribe to every order book, then every account.
    pub fn subscription_messages(&self) -> (texts: Vec<String>)
        ensures
            texts_view(texts@) == subscription_texts(self@.order_books, self@.accounts),
    {
        let mut texts: Vec<String> = Vec::new();
        let books = &self.subscriptions.order_books;
        let accounts = &self.subscriptions.accounts;
        let mut i: usize = 0;
        while i < books.len()
            invariant
                i <= books@.len(),
                texts@.len() == i,
                forall|j: int|
                    0 <= j < i ==> (#[trigger] texts@[j])@ == subscribe_text(
                        order_book_channel_name(books@[j].0),
                    ),
            decreases books@.len() - i,
        {
            texts.push(subscribe_message(order_book_channel(books[i]).as_str()));
            i = i + 1;
        }
        let mut k: usize = 0;
        while k < accounts.len()
            invariant
                k <= accounts@.len(),
                texts@.len() == books@.len() + k,
                forall|j: int|
                    0 <= j < books@.len() ==> (#[trigger] texts@[j])@ == subscribe_text(
                        order_book_channel_name(books@[j].0),
                    ),
                forall|j: int|
                    0 <= j < k ==> (#[trigger] texts@[books@.len() + j])@ == subscribe_text(
                        account_channel_name(accounts@[j].0),
                    ),
            decreases accounts@.len() - k,
        {
            texts.push(subscribe_message(account_channel(accounts[k]).as_str()));
            k = k + 1;
        }
        proof {
            let expected = subscription_texts(self@.order_books, self@.accounts);
            assert forall|j: int| 0 <= j < texts@.len() implies texts_view(texts@)[j] == expected[j] by {
                if j >= books@.len() {
                    let a = j - books@.len();
                    assert(texts@[books@.len() + a] == texts@[j]);
                }
            }
            assert(texts_view(texts@) =~= expected);
        }
        texts
    }

    /// The socket has ended or failed: the connection is to be opened again.
    /// Returns how many times it has been reopened since the server last
    /// confirmed a connection, which sets the delay before reopening it; the
    /// books and accounts stay until new messages replace them.
    pub fn begin_reconnect(&mut self) -> (attempt: u32)
        ensures
            attempt == old(self)@.reconnect_attempts,
            final(self)@ == (ConnectionView {
                reconnect_attempts: if old(self)@.reconnect_attempts < u32::MAX {
                    (old(self)@.reconnect_attempts + 1) as u32
                } else {
                    u32::MAX
                },
                ..old(self)@
            }),
    {
        let attempt = self.reconnect_attempts;
        if attempt < u32::MAX {
            self.reconnect_attempts = attempt + 1;
        }
        attempt
    }

    /// Decides what a frame read from the socket calls for.
    pub fn frame_step(frame: Frame) -> (s: FrameStep)
        ensures
            match frame {
                Frame::Text(t) => s == FrameStep::Text(t),
                Frame::Binary(b) => if valid_utf8(b@) {
                    s matches FrameStep::Text(t) && t@ == decode_utf8(b@)
                } else {
                    s matches FrameStep::Fail(e) && e@ == ErrorView::InvalidMessage(
                        "invalid utf8 payload"@,
                    )
                },
                Frame::Ping(p) => s == FrameStep::Reply(p),
                Frame::Pong(_) => s == FrameStep::Emit(WsEvent::Pong),
                Frame::Close(info) => s == FrameStep::Emit(WsEvent::Closed(info)),
                Frame::Raw => s == FrameStep::Skip,
            },
    {
        match frame {
            Frame::Text(t) => FrameStep::Text(t),
            Frame::Binary(b) => match utf8_to_string(b) {
                Some(t) => FrameStep::Text(t),
                None => FrameStep::Fail(
                    WsClientError::InvalidMessage(String::from_str("invalid utf8 payload")),
                ),
            },
            Frame::Ping(p) => FrameStep::Reply(p),
            Frame::Pong(_) => FrameStep::Emit(WsEvent::Pong),
            Frame::Close(info) => FrameStep::Emit(WsEvent::Closed(info)),
            Frame::Raw => FrameStep::Skip,
        }
    }

    fn handle_account_message(
        &mut self,
        channel: Option<String>,
        text: &str,
        snapshot: bool,
    ) -> (r: WsResult<AccountEventEnvelope>)
        requires
            json_value_ok(text@),
        ensures
            match channel {
                None => r matches Err(e) && e@ == ErrorView::InvalidChannel("missing channel"@)
                    && final(self)@ == old(self)@,
                Some(c) => match channel_account(c@) {
                    None => r matches Err(e) && e@ == ErrorView::InvalidChannel(c@) && final(self)@
                        == old(self)@,
                    Some(a) => r matches Ok(env) && env.account == AccountId(a) && env.snapshot
                        == snapshot && env.event@ == account_payload(text@) && final(self)@ == (
                    ConnectionView {
                        account_events: old(self)@.account_events.insert(a, account_payload(text@)),
                        ..old(self)@
                    }),
                },
            },
    {
        let channel = match channel {
            Some(c) => c,
            None => {
                return Err(WsClientError::InvalidChannel(String::from_str("missing channel")));
            },
        };
        let account = AccountId::new(parse_account_index(channel.as_str())?);
        let event = AccountEvent::new(json_without_field(text, "type"));
        let ghost before = self@;
        self.state.accounts.insert(account.0, event.clone());
        proof {
            assert(self@.account_events =~= before.account_events.insert(account.0, event@));
        }
        Ok(AccountEventEnvelope { account, snapshot, event })
    }

    /// Handles a text message: reads it as JSON, then updates the books and
    /// accounts it concerns and says what to send and what to report.
    /// `order_book` is the text read as an order-book envelope, or the error
    /// that reading raised.
    pub fn handle_text_message(
        &mut self,
        text: String,
        order_book: Result<OrderBookEnvelope, String>,
    ) -> (r: WsResult<Reply>)
        ensures
            if json_value_ok(text@) {
                (reply_view(r), final(self)@) == text_outcome(
                    old(self)@,
                    inbound_view(text@, envelope_view(order_book)),
                )
            } else {
                r matches Err(e) && e@ is Json && final(self)@ == old(self)@
            },
    {
        let message_type = match json_string_field(text.as_str(), "type") {
            Ok(t) => t,
            Err(e) => {
                return Err(WsClientError::Json(e));
            },
        };
        let channel = match json_string_field(text.as_str(), "channel") {
            Ok(c) => c,
            Err(e) => {
                return Err(WsClientError::Json(e));
            },
        };
        self.dispatch_message(InboundText { text, message_type, channel, order_book })
    }

    /// Handles a decoded text message: updates the books and accounts it
    /// concerns and says what to send and what to report.
    fn dispatch_message(&mut self, message: InboundText) -> (r: WsResult<Reply>)
        requires
            json_value_ok(message.text@),
        ensures
            (reply_view(r), final(self)@) == text_outcome(old(self)@, message@),
    {
        let ghost msg = message@;
        let InboundText { text, message_type, channel, order_book } = message;
        let message_type = match message_type {
            Some(t) => t,
            None => {
                return Err(WsClientError::MissingMessageType);
            },
        };
        let kind = message_type.as_str();
        if text_equals(kind, "connected") {
            let outgoing = self.subscription_messages();
            self.reconnect_attempts = 0;
            return Ok(Reply { outgoing, event: WsEvent::Connected });
        }
        let snapshot_book = text_equals(kind, "subscribed/order_book");
        if snapshot_book || text_equals(kind, "update/order_book") {
            let envelope = match order_book {
                Ok(e) => e,
                Err(e) => {
                    return Err(WsClientError::Json(e));
                },
            };
            let market = MarketId::new(parse_market_id(envelope.channel.as_str())?);
            let ghost before = self@;
            if snapshot_book {
                let snapshot = OrderBookState::from_payload(envelope.order_book);
                self.state.order_books.insert(market.0, snapshot.clone());
                proof {
                    assert(self@.books =~= before.books.insert(market.0, snapshot@));
                }
                let event = WsEvent::OrderBook(
                    OrderBookEvent { market, state: snapshot, delta: None },
                );
                let r = Ok(Reply { outgoing: Vec::new(), event });
                proof {
                    assert(texts_view(Seq::<String>::empty()) =~= Seq::<Seq<char>>::empty());
                }
                return r;
            } else {
                let delta = OrderBookDelta::from_payload(envelope.order_book);
                let mut state = match self.state.order_books.get(&market.0) {
                    Some(existing) => existing.clone(),
                    None => OrderBookState::from_delta(&delta),
                };
                state.apply_delta(&delta);
                self.state.order_books.insert(market.0, state.clone());
                proof {
                    assert(self@.books =~= before.books.insert(market.0, state@));
                }
                let event = WsEvent::OrderBook(
                    OrderBookEvent { market, state, delta: Some(delta) },
                );
                let r = Ok(Reply { outgoing: Vec::new(), event });
                proof {
                    assert(texts_view(Seq::<String>::empty()) =~= Seq::<Seq<char>>::empty());
                }
                return r;
            }
        }
        let snapshot_account = text_equals(kind, "subscribed/account_all");
        if snapshot_account || text_equals(kind, "update/account_all") {
            let envelope = self.handle_account_message(channel, text.as_str(), snapshot_account)?;
            let r = Ok(Reply { outgoing: Vec::new(), event: WsEvent::Account(envelope) });
            proof {
                assert(texts_view(Seq::<String>::empty()) =~= Seq::<Seq<char>>::empty());
            }
            return r;
        }
        let r = Ok(Reply { outgoing: Vec::new(), event: WsEvent::Unknown(text) });
        proof {
            assert(texts_view(Seq::<String>::empty()) =~= Seq::<Seq<char>>::empty());
        }
        r
    }
}

/// The message that subscribes to `channel`.
pub fn subscribe_message(channel: &str) -> (text: String)
    ensures
        text@ == subscribe_text(channel@),
{
    let mut fields: Vec<(String, String)> = Vec::new();
    fields.push((String::from_str("type"), String::from_str("subscribe")));
    fields.push((String::from_str("channel"), String::from_str(channel)));
    proof {
        assert(fields_view(fields@) =~= seq![("type"@, "subscribe"@), ("channel"@, channel@)]);
    }
    write_json_object(fields)
}


proof fn lemma_message_types_differ()
    ensures
        "connected"@ != "subscribed/order_book"@,
        "connected"@ != "update/order_book"@,
        "connected"@ != "subscribed/account_all"@,
        "connected"@ != "update/account_all"@,
        "subscribed/order_book"@ != "update/order_book"@,
        "subscribed/order_book"@ != "subscribed/account_all"@,
        "subscribed/order_book"@ != "update/account_all"@,
        "update/order_book"@ != "subscribed/account_all"@,
        "update/order_book"@ != "update/account_all"@,
        "subscribed/account_all"@ != "update/account_all"@,
{
    reveal_strlit("connected");
    reveal_strlit("subscribed/order_book");
    reveal_strlit("update/order_book");
    reveal_strlit("subscribed/account_all");
    reveal_strlit("update/account_all");
    assert("connected"@[0] != "subscribed/order_book"@[0] || "connected"@.len() != "subscribed/order_book"@.len());
    assert("connected"@[0] != "update/order_book"@[0] || "connected"@.len() != "update/order_book"@.len());
    assert("connected"@[0] != "subscribed/account_all"@[0] || "connected"@.len() != "subscribed/account_all"@.len());
    assert("connected"@[0] != "update/account_all"@[0] || "connected"@.len() != "update/account_all"@.len());
    assert("subscribed/order_book"@[0] != "update/order_book"@[0] || "subscribed/order_book"@.len() != "update/order_book"@.len());
    assert("subscribed/order_book"@[0] != "subscribed/account_all"@[0] || "subscribed/order_book"@.len() != "subscribed/account_all"@.len());
    assert("subscribed/order_book"@[0] != "update/account_all"@[0] || "subscribed/order_book"@.len() != "update/account_all"@.len());
    assert("update/order_book"@[0] != "subscribed/account_all"@[0] || "update/order_book"@.len() != "subscribed/account_all"@.len());
    assert("update/order_book"@[0] != "update/account_all"@[0] || "update/order_book"@.len() != "update/account_all"@.len());
    assert("subscribed/account_all"@[0] != "update/account_all"@[0] || "subscribed/account_all"@.len() != "update/account_all"@.len());
}

/// A message that fails leaves the connection as it was.
pub proof fn lemma_failed_message_changes_nothing(conn: ConnectionView, msg: InboundView)
    requires
        text_outcome(conn, msg).0 is Err,
    ensures
        text_outcome(conn, msg).1 == conn,
{
}

/// No message changes the connection's URL or its subscriptions.
pub proof fn lemma_message_keeps_subscriptions(conn: ConnectionView, msg: InboundView)
    ensures
        text_outcome(conn, msg).1.url == conn.url,
        text_outcome(conn, msg).1.order_books == conn.order_books,
        text_outcome(conn, msg).1.accounts == conn.accounts,
{
}

/// An order-book message touches only the book of the market its channel
/// names, and no account.
pub proof fn lemma_book_message_touches_one_market(
    conn: ConnectionView,
    msg: InboundView,
    channel: Seq<char>,
    book: BookView,
    other: i32,
)
    requires
        msg.message_type == Some("subscribed/order_book"@) || msg.message_type == Some(
            "update/order_book"@,
        ),
        msg.order_book == Ok::<(Seq<char>, BookView), Seq<char>>((channel, book)),
        channel_market(channel) != Some(other),
    ensures
        text_outcome(conn, msg).1.books.contains_key(other) == conn.books.contains_key(other),
        conn.books.contains_key(other) ==> text_outcome(conn, msg).1.books[other]
            == conn.books[other],
        text_outcome(conn, msg).1.account_events == conn.account_events,
{
    lemma_message_types_differ();
}

/// After a snapshot message, the market's book reads as the snapshot.
pub proof fn lemma_snapshot_then_read(
    conn: ConnectionView,
    msg: InboundView,
    channel: Seq<char>,
    book: BookView,
)
    requires
        msg.message_type == Some("subscribed/order_book"@),
        msg.order_book == Ok::<(Seq<char>, BookView), Seq<char>>((channel, book)),
        channel_market(channel) is Some,
    ensures
        text_outcome(conn, msg).0 is Ok,
        text_outcome(conn, msg).1.books.contains_key(channel_market(channel)->0),
        text_outcome(conn, msg).1.books[channel_market(channel)->0] == book,
{
    lemma_message_types_differ();
}

/// A snapshot followed by an update for the same market leaves the book that
/// the update's delta makes of the snapshot.
pub proof fn lemma_snapshot_then_update(
    conn: ConnectionView,
    snapshot: InboundView,
    update: InboundView,
    channel: Seq<char>,
    book: BookView,
    update_channel: Seq<char>,
    delta: BookView,
)
    requires
        snapshot.message_type == Some("subscribed/order_book"@),
        snapshot.order_book == Ok::<(Seq<char>, BookView), Seq<char>>((channel, book)),
        update.message_type == Some("update/order_book"@),
        update.order_book == Ok::<(Seq<char>, BookView), Seq<char>>((update_channel, delta)),
        channel_market(channel) is Some,
        channel_market(update_channel) == channel_market(channel),
    ensures
        ({
            let after = text_outcome(text_outcome(conn, snapshot).1, update).1;
            &&& after.books.contains_key(channel_market(channel)->0)
            &&& after.books[channel_market(channel)->0] == book_after_delta(book, delta)
        }),
{
    lemma_message_types_differ();
}

/// After an account message, the account reads as the message's payload.
pub proof fn lemma_account_message_then_read(conn: ConnectionView, msg: InboundView, channel: Seq<char>)
    requires
        msg.message_type == Some("subscribed/account_all"@) || msg.message_type == Some(
            "update/account_all"@,
        ),
        msg.channel == Some(channel),
        channel_account(channel) is Some,
    ensures
        text_outcome(conn, msg).0 is Ok,
        text_outcome(conn, msg).1.account_events.contains_key(channel_account(channel)->0),
        text_outcome(conn, msg).1.account_events[channel_account(channel)->0]
            == msg.account_payload,
{
    lemma_message_types_differ();
}

/// Each subscription message names a channel that reads back as the market
/// or account it subscribes to.
pub proof fn lemma_subscription_channels_read_back(
    order_books: Seq<MarketId>,
    accounts: Seq<AccountId>,
    i: int,
)
    requires
        0 <= i < order_books.len() + accounts.len(),
    ensures
        i < order_books.len() ==> subscription_texts(order_books, accounts)[i] == subscribe_text(
            order_book_channel_name(order_books[i].0),
        ) && channel_market(order_book_channel_name(order_books[i].0)) == Some(order_books[i].0),
        i >= order_books.len() ==> subscription_texts(order_books, accounts)[i] == subscribe_text(
            account_channel_name(accounts[i - order_books.len()].0),
        ) && channel_account(account_channel_name(accounts[i - order_books.len()].0)) == Some(
            accounts[i - order_books.len()].0,
        ),
{
    if i < order_books.len() {
        lemma_order_book_channel_roundtrip(order_books[i].0);
    } else {
        lemma_account_channel_roundtrip(accounts[i - order_books.len()].0);
    }
}

/// There is one subscription message per order book and then one per
/// account, in order, and nothing else.
pub proof fn lemma_subscription_count(order_books: Seq<MarketId>, accounts: Seq<AccountId>)
    ensures
        subscription_texts(order_books, accounts).len() == order_books.len() + accounts.len(),
        forall|i: int|
            0 <= i < order_books.len() ==> #[trigger] subscription_texts(order_books, accounts)[i]
                == subscribe_text(order_book_channel_name(order_books[i].0)),
        forall|i: int|
            0 <= i < accounts.len() ==> #[trigger] subscription_texts(order_books, accounts)[order_books.len()
                + i] == subscribe_text(account_channel_name(accounts[i].0)),
{
}

/// An order-book message reports the market's book as the connection stores
/// it afterwards: the snapshot itself, or the book that the update's delta
/// makes of the stored one (of a book made of the delta when none is stored).
pub proof fn lemma_book_event_reports_stored_book(
    conn: ConnectionView,
    msg: InboundView,
    channel: Seq<char>,
    book: BookView,
)
    requires
        msg.message_type == Some("subscribed/order_book"@) || msg.message_type == Some(
            "update/order_book"@,
        ),
        msg.order_book == Ok::<(Seq<char>, BookView), Seq<char>>((channel, book)),
        channel_market(channel) is Some,
    ensures
        ({
            let m = channel_market(channel)->0;
            let after = text_outcome(conn, msg).1;
            &&& after.books.contains_key(m)
            &&& text_outcome(conn, msg).0 matches Ok((out, EventView::OrderBook { market, state, delta }))
                && out.len() == 0 && market == MarketId(m) && state == after.books[m]
            &&& msg.message_type == Some("subscribed/order_book"@) ==> after.books[m] == book
            &&& msg.message_type == Some("update/order_book"@) ==> after.books[m]
                == book_after_delta(
                if conn.books.contains_key(m) {
                    conn.books[m]
                } else {
                    book
                },
                book,
            )
        }),
{
    lemma_message_types_differ();
}

} // verus!
