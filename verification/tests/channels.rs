use lighter_client::channel::{
    account_channel, last_channel_segment, order_book_channel, parse_account_index,
    parse_market_id,
};
use lighter_client::connection::subscribe_message;
use lighter_client::decimal::{parse_decimal_in_range, push_decimal};
use lighter_client::error::WsClientError;
use lighter_client::types::{AccountId, MarketId};

#[test]
fn market_id_from_slash_channel() {
    assert_eq!(parse_market_id("order_book/1"), Ok(1));
}

#[test]
fn market_id_from_colon_channel() {
    assert_eq!(parse_market_id("order_book:42"), Ok(42));
}

#[test]
fn market_id_uses_last_separator() {
    assert_eq!(parse_market_id("a/b:5"), Ok(5));
    assert_eq!(parse_market_id("12"), Ok(12));
}

#[test]
fn market_id_signs() {
    assert_eq!(parse_market_id("order_book/-3"), Ok(-3));
    assert_eq!(parse_market_id("order_book/+7"), Ok(7));
    assert_eq!(parse_market_id("order_book/007"), Ok(7));
}

#[test]
fn market_id_rejects_non_numbers() {
    assert_eq!(
        parse_market_id("order_book/abc"),
        Err(WsClientError::InvalidChannel("order_book/abc".to_string()))
    );
    assert_eq!(
        parse_market_id("order_book/"),
        Err(WsClientError::InvalidChannel("order_book/".to_string()))
    );
    assert_eq!(
        parse_market_id("order_book/-"),
        Err(WsClientError::InvalidChannel("order_book/-".to_string()))
    );
    assert_eq!(
        parse_market_id("order_book/ 1"),
        Err(WsClientError::InvalidChannel("order_book/ 1".to_string()))
    );
}

#[test]
fn market_id_range() {
    assert_eq!(parse_market_id("order_book/2147483647"), Ok(i32::MAX));
    assert_eq!(parse_market_id("order_book/-2147483648"), Ok(i32::MIN));
    assert!(parse_market_id("order_book/2147483648").is_err());
    assert!(parse_market_id("order_book/-2147483649").is_err());
    assert!(parse_market_id("order_book/99999999999999999999999").is_err());
}

#[test]
fn account_index_range() {
    assert_eq!(parse_account_index("account_all/7"), Ok(7));
    assert_eq!(parse_account_index("account_all:9223372036854775807"), Ok(i64::MAX));
    assert_eq!(parse_account_index("account_all/-9223372036854775808"), Ok(i64::MIN));
    assert_eq!(
        parse_account_index("account_all/9223372036854775808"),
        Err(WsClientError::InvalidChannel("account_all/9223372036854775808".to_string()))
    );
}

#[test]
fn parse_agrees_with_std() {
    let samples = [
        "0", "-0", "+0", "12", "-12", "+12", "", "+", "-", "1a", "a1", "--1", "+-1", "٣",
        "2147483647", "2147483648", "-2147483648", "-2147483649", "0000000000000000000042",
    ];
    for s in samples {
        let expected = s.parse::<i32>().ok().map(|v| v as i64);
        assert_eq!(parse_decimal_in_range(s, i32::MIN as i64, i32::MAX as i64), expected, "{s}");
    }
}

#[test]
fn last_segment_of_channels() {
    assert_eq!(last_channel_segment("order_book/1"), "1");
    assert_eq!(last_channel_segment("a:b/c"), "c");
    assert_eq!(last_channel_segment("plain"), "plain");
    assert_eq!(last_channel_segment("ends/"), "");
}

#[test]
fn decimal_formatting_matches_display() {
    for n in [0i64, 7, -7, 10, 1234567890, i64::MAX, i64::MIN, -100] {
        let mut s = String::new();
        push_decimal(&mut s, n);
        assert_eq!(s, n.to_string());
    }
}

#[test]
fn channel_names() {
    assert_eq!(order_book_channel(MarketId(5)), "order_book/5");
    assert_eq!(order_book_channel(MarketId(-12)), "order_book/-12");
    assert_eq!(account_channel(AccountId(i64::MIN)), "account_all/-9223372036854775808");
}

#[test]
fn channel_names_read_back() {
    for m in [0, 1, -1, 42, i32::MAX, i32::MIN] {
        assert_eq!(parse_market_id(&order_book_channel(MarketId(m))), Ok(m));
    }
    for a in [0, 9, -9, i64::MAX, i64::MIN] {
        assert_eq!(parse_account_index(&account_channel(AccountId(a))), Ok(a));
    }
}

#[test]
fn subscribe_message_text() {
    assert_eq!(
        subscribe_message("order_book/1"),
        "{\"channel\":\"order_book/1\",\"type\":\"subscribe\"}"
    );
}
