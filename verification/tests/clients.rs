use lighter_client::address::websocket_address_of;
use lighter_client::client::{build_url, WsBuilder, WsConfig};
use lighter_client::error::WsClientError;
use lighter_client::types::{AccountId, MarketId};

#[test]
fn https_becomes_wss() {
    assert_eq!(websocket_address_of("https://x.com"), "wss://x.com");
}

#[test]
fn http_becomes_ws() {
    assert_eq!(websocket_address_of("http://x.com/api"), "ws://x.com/api");
}

#[test]
fn websocket_addresses_are_kept() {
    assert_eq!(websocket_address_of("ws://a"), "ws://a");
    assert_eq!(websocket_address_of("wss://a"), "wss://a");
}

#[test]
fn bare_host_gets_wss() {
    assert_eq!(websocket_address_of("example.com"), "wss://example.com");
    assert_eq!(websocket_address_of(""), "wss://");
}

#[test]
fn default_config() {
    let c = WsConfig::default();
    assert_eq!(c.host, "");
    assert_eq!(c.path, "/stream");
}

#[test]
fn build_url_sets_path() {
    let config = WsConfig {
        host: "https://mainnet.zklighter.elliot.ai".to_string(),
        path: "/stream".to_string(),
    };
    assert_eq!(build_url(&config).unwrap(), "wss://mainnet.zklighter.elliot.ai/stream");
    let config = WsConfig { host: "http://localhost:8080/api".to_string(), path: "x".to_string() };
    assert_eq!(build_url(&config).unwrap(), "ws://localhost:8080/x");
}

#[test]
fn build_url_reports_bad_address() {
    let config = WsConfig { host: "https://".to_string(), path: "/stream".to_string() };
    assert_eq!(build_url(&config), Err(WsClientError::Url(url::ParseError::EmptyHost)));
}

#[test]
fn builder_without_subscriptions_fails() {
    let b = WsBuilder::new(WsConfig::default(), "https://api.example.com");
    assert!(matches!(b.build(), Err(WsClientError::EmptySubscriptions)));
}

#[test]
fn builder_uses_rest_base_when_host_is_empty() {
    let client = WsBuilder::new(WsConfig::default(), "https://api.example.com")
        .subscribe_order_book(MarketId(1))
        .subscribe_account(AccountId(2))
        .build()
        .unwrap();
    assert_eq!(client.url(), "wss://api.example.com/stream");
    assert_eq!(client.subscriptions().order_books, vec![MarketId(1)]);
    assert_eq!(client.subscriptions().accounts, vec![AccountId(2)]);
}

#[test]
fn builder_prefers_own_host() {
    let config = WsConfig { host: "ws://feed.local".to_string(), path: "/s".to_string() };
    let client = WsBuilder::new(config, "https://api.example.com")
        .subscribe_order_books(vec![MarketId(3), MarketId(4)])
        .build()
        .unwrap();
    assert_eq!(client.url(), "ws://feed.local/s");
    assert_eq!(client.subscriptions().order_books, vec![MarketId(3), MarketId(4)]);
}

#[test]
fn connected_client_starts_empty() {
    let client = WsBuilder::new(WsConfig::default(), "https://api.example.com")
        .subscribe_order_book(MarketId(1))
        .build()
        .unwrap();
    let conn = client.connected();
    assert_eq!(conn.url(), "wss://api.example.com/stream");
    assert!(conn.order_book_state(MarketId(1)).is_none());
    assert!(conn.account_state(AccountId(1)).is_none());
}
