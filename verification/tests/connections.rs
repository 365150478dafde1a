use lighter_client::connection::{
    AccountEvent, CloseFrameInfo, Frame, FrameStep, Reply, WsConnection, WsEvent,
};
use lighter_client::error::WsClientError;
use lighter_client::order_book::{OrderBookEnvelope, OrderBookLevel, OrderBookPayload};
use lighter_client::subscriptions::SubscriptionSet;
use lighter_client::types::{AccountId, MarketId};

fn level(price: &str, size: &str) -> OrderBookLevel {
    OrderBookLevel {
        price: price.to_string(),
        size: size.to_string(),
        remaining_base_amount: None,
        extra: vec![],
        size_is_zero: size.parse::<f64>().map(|v| v == 0.0).unwrap_or(false),
    }
}

fn connection() -> WsConnection {
    let mut subs = SubscriptionSet::default();
    subs.add_order_book(MarketId(1));
    subs.add_account(AccountId(7));
    WsConnection::new("wss://x/stream".to_string(), subs)
}

fn not_a_book() -> Result<OrderBookEnvelope, String> {
    Err("missing field `order_book`".to_string())
}

fn send(conn: &mut WsConnection, text: &str) -> Result<Reply, WsClientError> {
    conn.handle_text_message(text.to_string(), not_a_book())
}

fn message(kind: Option<&str>) -> String {
    match kind {
        Some(k) => format!("{{\"type\":\"{k}\"}}"),
        None => "{}".to_string(),
    }
}

fn book_message(
    conn: &mut WsConnection,
    kind: &str,
    channel: &str,
    asks: Vec<OrderBookLevel>,
    bids: Vec<OrderBookLevel>,
) -> Result<Reply, WsClientError> {
    let text = format!("{{\"type\":\"{kind}\",\"channel\":\"{channel}\"}}");
    let envelope = OrderBookEnvelope {
        channel: channel.to_string(),
        order_book: OrderBookPayload { asks, bids },
    };
    conn.handle_text_message(text, Ok(envelope))
}

fn sides(conn: &WsConnection, market: i32) -> (Vec<(String, String)>, Vec<(String, String)>) {
    let book = conn.order_book_state(MarketId(market)).unwrap();
    let f = |ls: &Vec<OrderBookLevel>| ls.iter().map(|l| (l.price.clone(), l.size.clone())).collect();
    (f(&book.asks), f(&book.bids))
}

#[test]
fn connected_sends_subscriptions() {
    let mut conn = connection();
    let reply = send(&mut conn, &message(Some("connected"))).unwrap();
    assert!(matches!(reply.event, WsEvent::Connected));
    assert_eq!(
        reply.outgoing,
        vec![
            "{\"channel\":\"order_book/1\",\"type\":\"subscribe\"}".to_string(),
            "{\"channel\":\"account_all/7\",\"type\":\"subscribe\"}".to_string(),
        ]
    );
}

#[test]
fn missing_type_is_an_error() {
    let mut conn = connection();
    assert!(matches!(
        send(&mut conn, &message(None)),
        Err(WsClientError::MissingMessageType)
    ));
}

#[test]
fn unknown_type_is_reported_with_its_text() {
    let mut conn = connection();
    let reply = send(&mut conn, "{\"type\":\"ping\"}").unwrap();
    assert!(reply.outgoing.is_empty());
    match reply.event {
        WsEvent::Unknown(t) => assert_eq!(t, "{\"type\":\"ping\"}"),
        other => panic!("unexpected {other:?}"),
    }
}

#[test]
fn snapshot_is_stored_and_reported() {
    let mut conn = connection();
    let reply = book_message(&mut conn, 
            "subscribed/order_book",
            "order_book:1",
            vec![level("10", "1")],
            vec![level("9", "2")],
        )
        .unwrap();
    match reply.event {
        WsEvent::OrderBook(e) => {
            assert_eq!(e.market, MarketId(1));
            assert!(e.delta.is_none());
            assert_eq!(e.state.asks[0].price, "10");
        }
        other => panic!("unexpected {other:?}"),
    }
    assert_eq!(
        sides(&conn, 1),
        (vec![("10".to_string(), "1".to_string())], vec![("9".to_string(), "2".to_string())])
    );
}

#[test]
fn update_merges_into_snapshot() {
    let mut conn = connection();
    book_message(&mut conn, 
        "subscribed/order_book",
        "order_book:1",
        vec![level("10", "1"), level("11", "1")],
        vec![level("9", "2")],
    )
    .unwrap();
    let reply = book_message(&mut conn, 
            "update/order_book",
            "order_book/1",
            vec![level("10", "0"), level("12", "4")],
            vec![level("9", "3")],
        )
        .unwrap();
    match reply.event {
        WsEvent::OrderBook(e) => {
            assert_eq!(e.market, MarketId(1));
            assert_eq!(e.delta.unwrap().asks.len(), 2);
            assert_eq!(e.state.asks.len(), 2);
        }
        other => panic!("unexpected {other:?}"),
    }
    assert_eq!(
        sides(&conn, 1),
        (
            vec![("11".to_string(), "1".to_string()), ("12".to_string(), "4".to_string())],
            vec![("9".to_string(), "3".to_string())]
        )
    );
}

#[test]
fn update_without_snapshot_starts_from_delta() {
    let mut conn = connection();
    book_message(&mut conn, 
        "update/order_book",
        "order_book/2",
        vec![level("10", "1"), level("11", "0")],
        vec![],
    )
    .unwrap();
    assert_eq!(sides(&conn, 2), (vec![("10".to_string(), "1".to_string())], vec![]));
}

#[test]
fn book_message_with_bad_channel_fails_and_changes_nothing() {
    let mut conn = connection();
    let r = book_message(&mut conn, "subscribed/order_book", "order_book/x", vec![], vec![]);
    assert_eq!(r.unwrap_err(), WsClientError::InvalidChannel("order_book/x".to_string()));
    assert!(conn.order_book_state(MarketId(1)).is_none());
}

#[test]
fn book_message_that_is_not_a_book_fails() {
    let mut conn = connection();
    let r = send(&mut conn, &message(Some("update/order_book")));
    assert_eq!(r.unwrap_err(), WsClientError::Json("missing field `order_book`".to_string()));
}

#[test]
fn account_messages_are_stored() {
    let mut conn = connection();
    let reply = send(
        &mut conn,
        "{\"type\":\"subscribed/account_all\",\"channel\":\"account_all/7\",\"trades\":[]}",
    )
    .unwrap();
    match reply.event {
        WsEvent::Account(e) => {
            assert_eq!(e.account, AccountId(7));
            assert!(e.snapshot);
            assert_eq!(e.event.as_value(), "{\"channel\":\"account_all/7\",\"trades\":[]}");
        }
        other => panic!("unexpected {other:?}"),
    }
    let update = "{\"channel\":\"account_all:7\",\"n\":2,\"type\":\"update/account_all\"}";
    match send(&mut conn, update).unwrap().event {
        WsEvent::Account(e) => assert!(!e.snapshot),
        other => panic!("unexpected {other:?}"),
    }
    assert_eq!(
        conn.account_state(AccountId(7)).unwrap().as_value(),
        "{\"channel\":\"account_all:7\",\"n\":2}"
    );
}

#[test]
fn account_message_without_channel_fails() {
    let mut conn = connection();
    let r = send(&mut conn, &message(Some("update/account_all")));
    assert_eq!(r.unwrap_err(), WsClientError::InvalidChannel("missing channel".to_string()));
    assert!(conn.account_state(AccountId(7)).is_none());
}

#[test]
fn text_that_is_not_json_fails_and_changes_nothing() {
    let mut conn = connection();
    let r = send(&mut conn, "not json");
    assert!(matches!(r, Err(WsClientError::Json(_))));
    assert!(conn.order_book_state(MarketId(1)).is_none());
}

#[test]
fn non_string_type_is_missing() {
    let mut conn = connection();
    assert!(matches!(send(&mut conn, "{\"type\":3}"), Err(WsClientError::MissingMessageType)));
    assert!(matches!(send(&mut conn, "[1,2]"), Err(WsClientError::MissingMessageType)));
}

#[test]
fn update_keeps_sides_ordered() {
    let mut conn = connection();
    book_message(
        &mut conn,
        "subscribed/order_book",
        "order_book/1",
        vec![level("101", "1"), level("103", "1")],
        vec![level("100", "1"), level("98", "1")],
    )
    .unwrap();
    book_message(
        &mut conn,
        "update/order_book",
        "order_book/1",
        vec![level("102", "1")],
        vec![level("99", "1")],
    )
    .unwrap();
    let (asks, bids) = sides(&conn, 1);
    let p = |v: Vec<(String, String)>| v.into_iter().map(|x| x.0).collect::<Vec<_>>();
    assert_eq!(p(asks), vec!["101", "102", "103"]);
    assert_eq!(p(bids), vec!["100", "99", "98"]);
}

#[test]
fn frames_are_sorted_out() {
    assert!(matches!(WsConnection::frame_step(Frame::Text("a".to_string())), FrameStep::Text(t) if t == "a"));
    assert!(matches!(
        WsConnection::frame_step(Frame::Binary("héllo".as_bytes().to_vec())),
        FrameStep::Text(t) if t == "héllo"
    ));
    assert!(matches!(
        WsConnection::frame_step(Frame::Binary(vec![0xff, 0xfe])),
        FrameStep::Fail(WsClientError::InvalidMessage(m)) if m == "invalid utf8 payload"
    ));
    assert!(matches!(WsConnection::frame_step(Frame::Ping(vec![1, 2])), FrameStep::Reply(p) if p == vec![1, 2]));
    assert!(matches!(WsConnection::frame_step(Frame::Pong(vec![])), FrameStep::Emit(WsEvent::Pong)));
    assert!(matches!(
        WsConnection::frame_step(Frame::Close(Some(CloseFrameInfo { code: 1000, reason: "bye".to_string() }))),
        FrameStep::Emit(WsEvent::Closed(Some(CloseFrameInfo { code: 1000, .. })))
    ));
    assert!(matches!(WsConnection::frame_step(Frame::Raw), FrameStep::Skip));
}

#[test]
fn account_event_holds_its_text() {
    let e = AccountEvent::new("{\"a\":1}".to_string());
    assert_eq!(e.as_value(), "{\"a\":1}");
    assert_eq!(e.into_inner(), "{\"a\":1}");
}

#[test]
fn book_message_touches_only_its_market() {
    let mut conn = connection();
    book_message(&mut conn, "subscribed/order_book", "order_book/1", vec![level("10", "1")], vec![])
        .unwrap();
    book_message(&mut conn, "subscribed/order_book", "order_book/2", vec![level("20", "1")], vec![])
        .unwrap();
    book_message(&mut conn, "update/order_book", "order_book/2", vec![level("21", "1")], vec![])
        .unwrap();
    assert_eq!(sides(&conn, 1), (vec![("10".to_string(), "1".to_string())], vec![]));
    assert_eq!(sides(&conn, 2).0.len(), 2);
    assert!(conn.account_state(AccountId(7)).is_none());
}

#[test]
fn messages_keep_url_and_subscriptions() {
    let mut conn = connection();
    send(&mut conn, &message(Some("connected"))).unwrap();
    let _ = send(&mut conn, &message(None));
    book_message(&mut conn, "subscribed/order_book", "order_book/1", vec![], vec![])
        .unwrap();
    assert_eq!(conn.url(), "wss://x/stream");
    assert_eq!(conn.subscriptions().order_books, vec![MarketId(1)]);
    assert_eq!(conn.subscriptions().accounts, vec![AccountId(7)]);
}

#[test]
fn reconnects_are_counted_until_the_server_confirms() {
    let mut conn = connection();
    assert_eq!(conn.begin_reconnect(), 0);
    assert_eq!(conn.begin_reconnect(), 1);
    assert_eq!(conn.begin_reconnect(), 2);
    send(&mut conn, &message(Some("connected"))).unwrap();
    assert_eq!(conn.begin_reconnect(), 0);
}
