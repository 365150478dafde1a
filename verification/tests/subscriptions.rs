use lighter_client::subscriptions::SubscriptionSet;
use lighter_client::types::{AccountId, MarketId};

#[test]
fn new_set_is_empty() {
    let s = SubscriptionSet::default();
    assert!(s.is_empty());
}

#[test]
fn adding_an_order_book_makes_it_non_empty() {
    let mut s = SubscriptionSet::default();
    s.add_order_book(MarketId(3));
    assert!(!s.is_empty());
    assert_eq!(s.order_books, vec![MarketId(3)]);
    assert!(s.accounts.is_empty());
}

#[test]
fn adding_an_account_makes_it_non_empty() {
    let mut s = SubscriptionSet::default();
    s.add_account(AccountId(11));
    assert!(!s.is_empty());
    assert_eq!(s.accounts, vec![AccountId(11)]);
}

#[test]
fn extend_keeps_order() {
    let mut s = SubscriptionSet::default();
    s.add_order_book(MarketId(1));
    s.extend_order_books(vec![MarketId(2), MarketId(3)]);
    assert_eq!(s.order_books, vec![MarketId(1), MarketId(2), MarketId(3)]);
    let c = s.clone();
    assert_eq!(c.order_books, s.order_books);
}
