use lighter_client::order_book::{
    update_side, OrderBookDelta, OrderBookLevel, OrderBookPayload, OrderBookState, PriceOrder,
};
use lighter_client::price::is_lower_price;

fn level(price: &str, size: &str) -> OrderBookLevel {
    OrderBookLevel {
        price: price.to_string(),
        size: size.to_string(),
        remaining_base_amount: None,
        extra: vec![],
        size_is_zero: size.parse::<f64>().map(|v| v == 0.0).unwrap_or(false),
    }
}

fn prices(levels: &[OrderBookLevel]) -> Vec<(String, String)> {
    levels.iter().map(|l| (l.price.clone(), l.size.clone())).collect()
}

fn pairs(items: &[(&str, &str)]) -> Vec<(String, String)> {
    items.iter().map(|(p, s)| (p.to_string(), s.to_string())).collect()
}

#[test]
fn update_replaces_level_at_same_price() {
    let mut levels = vec![level("100", "1"), level("101", "2")];
    update_side(&mut levels, &[level("101", "5")], PriceOrder::LowestFirst);
    assert_eq!(prices(&levels), pairs(&[("100", "1"), ("101", "5")]));
}

#[test]
fn new_ask_goes_in_at_its_price() {
    let mut levels = vec![level("100", "1")];
    update_side(&mut levels, &[level("99", "3"), level("101", "2")], PriceOrder::LowestFirst);
    assert_eq!(prices(&levels), pairs(&[("99", "3"), ("100", "1"), ("101", "2")]));
}

#[test]
fn new_bid_goes_in_at_its_price() {
    let mut levels = vec![level("100", "1"), level("98", "1")];
    update_side(&mut levels, &[level("99", "2")], PriceOrder::HighestFirst);
    assert_eq!(prices(&levels), pairs(&[("100", "1"), ("99", "2"), ("98", "1")]));
}

#[test]
fn prices_compare_as_decimals() {
    assert!(is_lower_price("9.5", "10"));
    assert!(is_lower_price("99.99", "100"));
    assert!(is_lower_price("0.5", "0.55"));
    assert!(is_lower_price("0.49", "0.5"));
    assert!(!is_lower_price("100", "100.00"));
    assert!(!is_lower_price("100.00", "0100"));
    assert!(is_lower_price("3024.6", "3024.66"));
    assert!(!is_lower_price("3024.66", "3024.6"));
}

#[test]
fn zero_size_removes_level() {
    let mut levels = vec![level("100", "1"), level("101", "2")];
    update_side(&mut levels, &[level("100", "0.000")], PriceOrder::LowestFirst);
    assert_eq!(prices(&levels), pairs(&[("101", "2")]));
}

#[test]
fn zero_size_for_unknown_price_leaves_nothing() {
    let mut levels = vec![level("100", "1")];
    update_side(&mut levels, &[level("105", "0")], PriceOrder::LowestFirst);
    assert_eq!(prices(&levels), pairs(&[("100", "1")]));
}

#[test]
fn update_drops_old_zero_levels() {
    let mut levels = vec![level("100", "0"), level("101", "2")];
    update_side(&mut levels, &[], PriceOrder::LowestFirst);
    assert_eq!(prices(&levels), pairs(&[("101", "2")]));
}

#[test]
fn last_update_at_a_price_wins() {
    let mut levels = vec![level("100", "1")];
    update_side(&mut levels, &[level("100", "4"), level("100", "6"), level("102", "1")], PriceOrder::LowestFirst);
    assert_eq!(prices(&levels), pairs(&[("100", "6"), ("102", "1")]));
    let mut levels = vec![level("100", "1")];
    update_side(&mut levels, &[level("100", "4"), level("100", "0")], PriceOrder::LowestFirst);
    assert!(levels.is_empty());
}

#[test]
fn distinct_prices_stay_distinct() {
    let mut levels = vec![level("1", "1"), level("2", "1"), level("3", "1")];
    update_side(&mut levels, &[level("2", "5"), level("4", "1"), level("4", "2"), level("1", "0")], PriceOrder::LowestFirst);
    let mut seen: Vec<String> = levels.iter().map(|l| l.price.clone()).collect();
    seen.sort();
    seen.dedup();
    assert_eq!(seen.len(), levels.len());
    assert_eq!(prices(&levels), pairs(&[("2", "5"), ("3", "1"), ("4", "2")]));
}

#[test]
fn applying_a_batch_twice_changes_nothing() {
    let updates = [level("2", "5"), level("4", "1"), level("4", "0"), level("1", "0"), level("5", "3")];
    let mut levels = vec![level("1", "1"), level("2", "1"), level("3", "1")];
    update_side(&mut levels, &updates, PriceOrder::LowestFirst);
    let once = prices(&levels);
    update_side(&mut levels, &updates, PriceOrder::LowestFirst);
    assert_eq!(prices(&levels), once);
}

#[test]
fn extra_fields_are_carried() {
    let mut update = level("100", "2");
    update.remaining_base_amount = Some("1.5".to_string());
    update.extra = vec![("orders".to_string(), "3".to_string())];
    let mut levels = vec![level("100", "1")];
    update_side(&mut levels, &[update], PriceOrder::LowestFirst);
    assert_eq!(levels[0].remaining_base_amount.as_deref(), Some("1.5"));
    assert_eq!(levels[0].extra, vec![("orders".to_string(), "3".to_string())]);
}

#[test]
fn apply_delta_updates_both_sides() {
    let mut book = OrderBookState::from_payload(OrderBookPayload {
        asks: vec![level("10", "1")],
        bids: vec![level("9", "1")],
    });
    let delta = OrderBookDelta {
        asks: vec![level("10", "0"), level("12", "1"), level("11", "1")],
        bids: vec![level("8", "2"), level("9.5", "1")],
    };
    book.apply_delta(&delta);
    assert_eq!(prices(&book.asks), pairs(&[("11", "1"), ("12", "1")]));
    assert_eq!(prices(&book.bids), pairs(&[("9.5", "1"), ("9", "1"), ("8", "2")]));
}

#[test]
fn book_from_delta_copies_levels() {
    let delta = OrderBookDelta { asks: vec![level("10", "1")], bids: vec![] };
    let book = OrderBookState::from_delta(&delta);
    assert_eq!(prices(&book.asks), pairs(&[("10", "1")]));
    assert!(book.bids.is_empty());
}

#[test]
fn applying_a_batch_twice_to_an_unordered_side_changes_nothing() {
    let updates = [level("99", "3"), level("100.0", "1"), level("7", "0"), level("98", "2")];
    let mut levels = vec![level("100", "1"), level("98", "1"), level("7", "4")];
    update_side(&mut levels, &updates, PriceOrder::LowestFirst);
    let once = prices(&levels);
    update_side(&mut levels, &updates, PriceOrder::LowestFirst);
    assert_eq!(prices(&levels), once);
}
